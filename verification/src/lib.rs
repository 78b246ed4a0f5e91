//! Block-delta synchronisation core: rolling and strong block checksums,
//! basis-file signatures, the delta matcher, the remote helper's request
//! handling, and the RDMA fast path's wire protocol and transfer rules.
pub mod delta;
pub mod rdma;
pub mod remote_helper;
pub mod text;
