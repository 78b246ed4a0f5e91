//! The messages exchanged with the remote delta helper.
use vstd::prelude::*;

verus! {

/// What the local side asks of the remote helper: the source file to read
/// and the signature of the local basis file.
#[derive(Debug, Clone)]
pub struct HelperRequest {
    pub protocol_version: u32,
    pub source_path: String,
    pub file_size: u64,
    pub mtime_secs: i64,
    pub block_size: u32,
    pub blocks: Vec<BlockSigWire>,
    pub max_literals: u64,
}

/// One block of a basis signature as it travels on the wire: the strong hash
/// is written as hexadecimal text.
#[derive(Debug, Clone)]
pub struct BlockSigWire {
    pub index: u64,
    pub len: u32,
    pub weak: u32,
    pub strong_hex: String,
}

/// The helper's answer: the delta operations that rebuild the source from
/// the basis, with totals and the digest of the whole source.
#[derive(Debug, Clone)]
pub struct HelperResponse {
    pub protocol_version: u32,
    pub source_size: u64,
    pub source_mtime_secs: i64,
    pub ops: Vec<DeltaOp>,
    pub final_digest_hex: String,
    pub literal_bytes: u64,
    pub copy_bytes: u64,
}

/// One step of rebuilding a file: copy a block of the basis, or write
/// literal bytes (base64 text).
#[derive(Debug, Clone)]
pub enum DeltaOp {
    Copy { block_index: u64, len: u32 },
    Literal { data_b64: String },
}

/// A `DeltaOp` as a mathematical value.
pub enum DeltaOpView {
    Copy { block_index: u64, len: u32 },
    Literal { data_b64: Seq<char> },
}

impl View for DeltaOp {
    type V = DeltaOpView;

    open spec fn view(&self) -> DeltaOpView {
        match self {
            DeltaOp::Copy { block_index, len } => DeltaOpView::Copy {
                block_index: *block_index,
                len: *len,
            },
            DeltaOp::Literal { data_b64 } => DeltaOpView::Literal { data_b64: data_b64@ },
        }
    }
}

/// The delta operations of a helper response, with what the caller needs to
/// apply and check them.
#[derive(Debug, Clone)]
pub struct DeltaPlan {
    pub ops: Vec<DeltaOp>,
    pub final_digest_hex: String,
    pub literal_bytes: u64,
    pub copy_bytes: u64,
    pub source_size: u64,
    pub source_mtime_secs: i64,
}

} // verus!
