//! Block-delta transfer: checksums, signatures, the matcher and the helper protocol.
pub mod checksum;
pub mod protocol;
pub mod signature;
pub mod matcher;
