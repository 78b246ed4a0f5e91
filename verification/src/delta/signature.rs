//! Signatures of basis files: the weak and strong checksum of each block.
use vstd::prelude::*;

verus! {

use crate::delta::checksum::{strong_digest, strong_hash128, weak_checksum, weak_hash};
use crate::delta::protocol::BlockSigWire;
use crate::text::{hex_fixed, hex_u128};

/// The checksums of one block of a basis file.
#[derive(Debug, Clone)]
pub struct BlockSig {
    pub index: u64,
    pub len: u32,
    pub weak: u32,
    pub strong: u128,
}

/// The signature of a basis file: its size and the checksums of its blocks,
/// in order.
#[derive(Debug, Clone)]
pub struct FileSignature {
    pub block_size: u32,
    pub file_size: u64,
    pub blocks: Vec<BlockSig>,
}

/// The block size used when none is configured: 32 KiB below 64 MiB,
/// 64 KiB below 1 GiB, 128 KiB from there on.
pub open spec fn adaptive_block_size(file_size: u64) -> nat {
    if file_size < 64 * 1024 * 1024 {
        32 * 1024
    } else if file_size < 1024 * 1024 * 1024 {
        64 * 1024
    } else {
        128 * 1024
    }
}

/// The block size for a file of `file_size` bytes: a configured size, raised
/// to at least 1024, or else the adaptive size.
pub fn choose_block_size(file_size: u64, configured: Option<u32>) -> (bs: u32)
    ensures
        match configured {
            Some(v) => bs == if v < 1024 { 1024 } else { v },
            None => bs == adaptive_block_size(file_size),
        },
{
    if let Some(v) = configured {
        return if v < 1024 {
            1024
        } else {
            v
        };
    }
    if file_size < 64 * 1024 * 1024 {
        32 * 1024
    } else if file_size < 1024 * 1024 * 1024 {
        64 * 1024
    } else {
        128 * 1024
    }
}

/// With no configured size, a larger file never gets a smaller block: the
/// adaptive size is non-decreasing in the file size. Files under 64 MiB get
/// 32 KiB blocks and every file of 1 GiB or more gets 128 KiB blocks.
pub proof fn lemma_adaptive_block_size_monotone(f1: u64, f2: u64)
    ensures
        f1 <= f2 ==> adaptive_block_size(f1) <= adaptive_block_size(f2),
        f1 < 0x400_0000 ==> adaptive_block_size(f1) == 0x8000,
        f2 >= 0x4000_0000 ==> adaptive_block_size(f2) == 0x2_0000,
        0x8000 <= adaptive_block_size(f1) <= 0x2_0000,
{
}

/// The number of blocks of size `bs` that cover `n` bytes (the last one may
/// be short); none when `bs` is zero.
pub open spec fn block_count(n: int, bs: int) -> int {
    if bs <= 0 {
        0
    } else {
        (n + bs - 1) / bs
    }
}

/// Block `k` of `data` at block size `bs`: the bytes from `k * bs` up to the
/// next boundary or the end of the data.
pub open spec fn block_bytes(data: Seq<u8>, bs: int, k: int) -> Seq<u8> {
    let start = k * bs;
    let end = if start + bs <= data.len() {
        start + bs
    } else {
        data.len() as int
    };
    data.subrange(start, end)
}

/// `sig` is the signature entry of block `k` of `data` at block size `bs`.
pub open spec fn describes_block(sig: BlockSig, data: Seq<u8>, bs: int, k: int) -> bool {
    let b = block_bytes(data, bs, k);
    &&& sig.index == k
    &&& sig.len == b.len()
    &&& sig.weak == weak_checksum(b)
    &&& sig.strong == strong_digest(b)
}

/// The signature of `data` read in blocks of `block_size` bytes: one entry per
/// block, in order, the last block possibly short. A block size of zero reads
/// nothing and gives an empty signature of size zero.
pub fn build_signature_from_bytes(data: &[u8], block_size: u32) -> (sig: FileSignature)
    ensures
        sig.block_size == block_size,
        sig.file_size == if block_size == 0 {
            0
        } else {
            data@.len()
        },
        sig.blocks@.len() == block_count(data@.len() as int, block_size as int),
        forall|k: int|
            0 <= k < sig.blocks@.len() ==> describes_block(
                #[trigger] sig.blocks@[k],
                data@,
                block_size as int,
                k,
            ),
        block_size > 0 ==> entries_cover_blocks(sig.blocks@, data@, block_size as int) && lens_total(
            sig.blocks@,
        ) == data@.len(),
{
    let mut blocks: Vec<BlockSig> = Vec::new();
    if block_size == 0 {
        return FileSignature { block_size, file_size: 0, blocks };
    }
    let bs = block_size as usize;
    let n = data.len();
    let mut start: usize = 0;
    let mut index: u64 = 0;
    proof {
        lemma_block_count_start(n as int, bs as int);
    }
    while start < n
        invariant
            bs == block_size,
            bs > 0,
            n == data@.len(),
            start <= n,
            start < n ==> start == index * bs,
            blocks@.len() == index,
            start < n ==> index < block_count(n as int, bs as int),
            start == n ==> index == block_count(n as int, bs as int),
            forall|k: int|
                0 <= k < blocks@.len() ==> describes_block(
                    #[trigger] blocks@[k],
                    data@,
                    bs as int,
                    k,
                ),
        decreases n - start,
    {
        let end = if n - start >= bs {
            start + bs
        } else {
            n
        };
        let chunk = vstd::slice::slice_subrange(data, start, end);
        assert(chunk@ == block_bytes(data@, bs as int, index as int));
        let sig = BlockSig {
            index,
            len: (end - start) as u32,
            weak: weak_hash(chunk),
            strong: strong_hash128(chunk),
        };
        blocks.push(sig);
        proof {
            lemma_block_count_step(n as int, bs as int, index as int);
        }
        start = end;
        index = index + 1;
    }
    proof {
        lemma_signature_tiles(data@, bs as int, blocks@);
    }
    FileSignature { block_size, file_size: n as u64, blocks }
}

proof fn lemma_block_count_start(n: int, bs: int)
    requires
        bs > 0,
        n >= 0,
    ensures
        n > 0 ==> 0 < block_count(n, bs),
        n == 0 ==> block_count(n, bs) == 0,
{
    let c = (n + bs - 1) / bs;
    if n > 0 {
        assert(0 < c) by (nonlinear_arith)
            requires
                bs > 0,
                n > 0,
                c == (n + bs - 1) / bs,
        ;
    } else {
        assert(c == 0) by (nonlinear_arith)
            requires
                bs > 0,
                n == 0,
                c == (n + bs - 1) / bs,
        ;
    }
}

proof fn lemma_block_count_step(n: int, bs: int, k: int)
    requires
        bs > 0,
        0 <= k,
        k * bs < n,
    ensures
        k < block_count(n, bs),
        block_count(n, bs) <= n,
        k * bs + bs < n ==> k + 1 < block_count(n, bs),
        k * bs + bs >= n ==> k + 1 == block_count(n, bs),
        (k + 1) * bs == k * bs + bs,
{
    assert((k + 1) * bs == k * bs + bs) by (nonlinear_arith);
    let c = (n + bs - 1) / bs;
    assert(c <= n) by (nonlinear_arith)
        requires
            bs > 0,
            n > 0,
            c == (n + bs - 1) / bs,
    ;
    assert(k < c) by (nonlinear_arith)
        requires
            bs > 0,
            k * bs < n,
            c == (n + bs - 1) / bs,
    ;
    if k * bs + bs < n {
        assert(k + 1 < c) by (nonlinear_arith)
            requires
                bs > 0,
                (k + 1) * bs < n,
                c == (n + bs - 1) / bs,
        ;
    } else {
        assert(k + 1 == c) by (nonlinear_arith)
            requires
                bs > 0,
                k * bs < n,
                (k + 1) * bs >= n,
                c == (n + bs - 1) / bs,
        ;
    }
}

/// The sum of the lengths of the entries.
pub open spec fn lens_total(sigs: Seq<BlockSig>) -> int
    decreases sigs.len(),
{
    if sigs.len() == 0 {
        0
    } else {
        lens_total(sigs.drop_last()) + sigs.last().len
    }
}

/// Entry `k` stands for the bytes of `data` that start at `k * bs`: `bs` of
/// them, or all that are left when fewer remain, with their checksums.
pub open spec fn entries_cover_blocks(sigs: Seq<BlockSig>, data: Seq<u8>, bs: int) -> bool {
    forall|k: int|
        0 <= k < sigs.len() ==> {
            let start = k * bs;
            let len = (#[trigger] sigs[k]).len as int;
            &&& sigs[k].index == k
            &&& 0 <= start < data.len()
            &&& len == if data.len() - start < bs {
                data.len() - start
            } else {
                bs
            }
            &&& sigs[k].weak == weak_checksum(data.subrange(start, start + len))
            &&& sigs[k].strong == strong_digest(data.subrange(start, start + len))
        }
}

proof fn lemma_block_count_bounds(n: int, bs: int, k: int)
    requires
        bs > 0,
        n >= 0,
    ensures
        block_count(n, bs) * bs >= n,
        0 <= k < block_count(n, bs) ==> 0 <= k * bs < n,
        block_count(n, bs) >= 0,
{
    let c = (n + bs - 1) / bs;
    vstd::arithmetic::div_mod::lemma_fundamental_div_mod(n + bs - 1, bs);
    let r = (n + bs - 1) % bs;
    assert(c * bs >= n) by (nonlinear_arith)
        requires
            n + bs - 1 == bs * c + r,
            0 <= r < bs,
    ;
    assert(c >= 0) by (nonlinear_arith)
        requires
            bs > 0,
            n >= 0,
            c == (n + bs - 1) / bs,
    ;
    if 0 <= k < c {
        assert(0 <= k * bs < n) by (nonlinear_arith)
            requires
                n + bs - 1 == bs * c + r,
                0 <= r < bs,
                0 <= k < c,
                bs > 0,
        ;
    }
}

proof fn lemma_lens_total_prefix(sigs: Seq<BlockSig>, data: Seq<u8>, bs: int, m: int)
    requires
        bs > 0,
        0 <= m <= sigs.len(),
        entries_cover_blocks(sigs, data, bs),
    ensures
        lens_total(sigs.take(m)) == if m * bs <= data.len() {
            m * bs
        } else {
            data.len() as int
        },
    decreases m,
{
    if m == 0 {
        assert(sigs.take(0) =~= Seq::<BlockSig>::empty());
    } else {
        lemma_lens_total_prefix(sigs, data, bs, m - 1);
        assert(sigs.take(m).drop_last() =~= sigs.take(m - 1));
        assert(sigs.take(m).last() == sigs[m - 1]);
        let k = m - 1;
        assert(0 <= k * bs < data.len());
        assert(m * bs == k * bs + bs) by (nonlinear_arith)
            requires
                k == m - 1,
        ;
    }
}

/// A signature of `data` at block size `bs > 0` cuts the data into
/// consecutive blocks: entry `k` is block `k`, starts at `k * bs` and holds
/// `bs` bytes, or only the bytes that are left for the last block, with the
/// checksums of exactly those bytes; the lengths add up to the data's size.
pub proof fn lemma_signature_tiles(data: Seq<u8>, bs: int, sigs: Seq<BlockSig>)
    requires
        bs > 0,
        sigs.len() == block_count(data.len() as int, bs),
        forall|k: int| 0 <= k < sigs.len() ==> describes_block(#[trigger] sigs[k], data, bs, k),
    ensures
        entries_cover_blocks(sigs, data, bs),
        lens_total(sigs) == data.len(),
{
    let n = data.len() as int;
    assert forall|k: int| 0 <= k < sigs.len() implies {
        let start = k * bs;
        let len = (#[trigger] sigs[k]).len as int;
        &&& sigs[k].index == k
        &&& 0 <= start < data.len()
        &&& len == if data.len() - start < bs {
            data.len() - start
        } else {
            bs
        }
        &&& sigs[k].weak == weak_checksum(data.subrange(start, start + len))
        &&& sigs[k].strong == strong_digest(data.subrange(start, start + len))
    } by {
        lemma_block_count_bounds(n, bs, k);
        assert(describes_block(sigs[k], data, bs, k));
        let start = k * bs;
        let len = sigs[k].len as int;
        assert(block_bytes(data, bs, k) =~= data.subrange(start, start + len));
    }
    lemma_block_count_bounds(n, bs, 0);
    lemma_lens_total_prefix(sigs, data, bs, sigs.len() as int);
    assert(sigs.take(sigs.len() as int) =~= sigs);
}

impl BlockSig {
    /// The block's entry as it is sent to the helper: the strong hash as 32
    /// lower-case hexadecimal digits.
    pub fn to_wire(&self) -> (w: BlockSigWire)
        ensures
            w.index == self.index,
            w.len == self.len,
            w.weak == self.weak,
            w.strong_hex@ == hex_fixed(self.strong as int, 32),
    {
        BlockSigWire {
            index: self.index,
            len: self.len,
            weak: self.weak,
            strong_hex: hex_u128(self.strong),
        }
    }
}

} // verus!
