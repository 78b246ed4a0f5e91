//! The delta matcher: scans a source file for windows that match blocks of a
//! basis signature and describes the source as copies of basis blocks and
//! literal bytes.
use vstd::prelude::*;

verus! {

use std::collections::HashMap;
use base64::Engine;
use vstd::utf8::encode_utf8;
use crate::delta::checksum::{
    RollingChecksum,
    lemma_roll_matches_recompute,
    state_sum,
    strong_digest,
    strong_hash128,
    weak_checksum,
    window_state,
};
use crate::delta::protocol::{BlockSigWire, DeltaOp, DeltaOpView, HelperResponse};
use crate::delta::signature::block_bytes;
use crate::text::{hex_fixed, hex_u128, hex_u128_text_value, lemma_hex_fixed_parses, parse_hex_u128};

broadcast use vstd::std_specs::hash::group_hash_axioms;

/// The character of the standard base64 alphabet for `0 <= v < 64`:
/// `A`-`Z`, `a`-`z`, `0`-`9`, `+`, `/`.
pub open spec fn base64_char(v: int) -> char {
    if v < 26 {
        (65 + v) as char
    } else if v < 52 {
        (71 + v) as char
    } else if v < 62 {
        (v - 4) as char
    } else if v == 62 {
        '+'
    } else {
        '/'
    }
}

/// The standard, padded base64 text of `data`: each group of three bytes
/// becomes four characters of six bits each, most significant first; a last
/// group of one or two bytes is filled with zero bits and padded with `=` to
/// four characters.
pub open spec fn base64_standard(data: Seq<u8>) -> Seq<char>
    decreases data.len(),
{
    if data.len() == 0 {
        seq![]
    } else if data.len() == 1 {
        let b0 = data[0] as int;
        seq![base64_char(b0 / 4), base64_char((b0 % 4) * 16), '=', '=']
    } else if data.len() == 2 {
        let b0 = data[0] as int;
        let b1 = data[1] as int;
        seq![
            base64_char(b0 / 4),
            base64_char((b0 % 4) * 16 + b1 / 16),
            base64_char((b1 % 16) * 4),
            '=',
        ]
    } else {
        let b0 = data[0] as int;
        let b1 = data[1] as int;
        let b2 = data[2] as int;
        seq![
            base64_char(b0 / 4),
            base64_char((b0 % 4) * 16 + b1 / 16),
            base64_char((b1 % 16) * 4 + b2 / 64),
            base64_char(b2 % 64),
        ] + base64_standard(data.subrange(3, data.len() as int))
    }
}

/// The length of the padded base64 text of `n` bytes.
pub open spec fn base64_len(n: int) -> int {
    (n / 3) * 4 + if n % 3 > 0 {
        4int
    } else {
        0int
    }
}

/// Calls `STANDARD.encode` (the padded standard alphabet of the `base64`
/// crate). Claimed: the text is the standard, padded base64 text of the
/// input, as `base64_standard` spells it out. The crate
/// panics when the text's length does not fit in `usize`, which `requires`
/// leaves out.
#[verifier::external_body]
fn encode_base64(data: &[u8]) -> (s: String)
    requires
        base64_len(data@.len() as int) <= usize::MAX,
    ensures
        s@ == base64_standard(data@),
{
    base64::engine::general_purpose::STANDARD.encode(data)
}

/// The window of `bs` bytes of `src` that starts at `i`.
pub open spec fn window(src: Seq<u8>, i: int, bs: int) -> Seq<u8> {
    src.subrange(i, i + bs)
}

/// Block `b` of the basis signature stands for a source window of `bs` bytes
/// with weak checksum `weak` and strong hash `strong`: the block has that
/// length and weak checksum, and its strong hash text parses to `strong`.
pub open spec fn block_accepts(b: BlockSigWire, bs: int, weak: int, strong: int) -> bool {
    &&& b.weak as int == weak
    &&& b.len as int == bs
    &&& hex_u128_text_value(encode_utf8(b.strong_hex@)) == Some(strong)
}

/// The first of the blocks `0 .. n` that accepts the window.
pub open spec fn first_accepting(
    blocks: Seq<BlockSigWire>,
    n: nat,
    bs: int,
    weak: int,
    strong: int,
) -> Option<int>
    decreases n,
{
    if n == 0 {
        None
    } else {
        match first_accepting(blocks, (n - 1) as nat, bs, weak, strong) {
            Some(j) => Some(j),
            None => if block_accepts(blocks[n - 1], bs, weak, strong) {
                Some(n - 1)
            } else {
                None
            },
        }
    }
}

/// The block that matches the window of `src` at `i`, if any: the first
/// block of the signature that accepts it.
pub open spec fn match_at(src: Seq<u8>, bs: int, blocks: Seq<BlockSigWire>, i: int) -> Option<int> {
    let w = window(src, i, bs);
    first_accepting(blocks, blocks.len(), bs, weak_checksum(w), strong_digest(w))
}

/// A piece of the source: the window at `start` copied from basis block
/// `block`, or the literal bytes `start .. end`.
pub enum Segment {
    Copy { block: int, start: int },
    Literal { start: int, end: int },
}

/// The source from position `i` on, as the matcher cuts it when the literal
/// run that is still open began at `lit`: at each position where a full
/// window fits, a matching window becomes a copy (after the pending literal
/// run) and the scan jumps past it; otherwise the scan moves on one byte.
/// What remains unmatched at the end is one last literal run.
pub open spec fn segments_from(
    src: Seq<u8>,
    bs: int,
    blocks: Seq<BlockSigWire>,
    i: int,
    lit: int,
) -> Seq<Segment>
    decreases src.len() - i,
{
    if bs <= 0 || i < 0 || i + bs > src.len() {
        if lit < src.len() {
            seq![Segment::Literal { start: lit, end: src.len() as int }]
        } else {
            seq![]
        }
    } else {
        match match_at(src, bs, blocks, i) {
            Some(j) => {
                let pending = if lit < i {
                    seq![Segment::Literal { start: lit, end: i }]
                } else {
                    seq![]
                };
                pending.push(Segment::Copy { block: j, start: i }) + segments_from(
                    src,
                    bs,
                    blocks,
                    i + bs,
                    i + bs,
                )
            },
            None => segments_from(src, bs, blocks, i + 1, lit),
        }
    }
}

/// The segments that the matcher cuts the whole source into.
pub open spec fn delta_segments(src: Seq<u8>, bs: int, blocks: Seq<BlockSigWire>) -> Seq<Segment> {
    segments_from(src, bs, blocks, 0, 0)
}

/// The delta operation that stands for a segment.
pub open spec fn segment_op(src: Seq<u8>, blocks: Seq<BlockSigWire>, seg: Segment) -> DeltaOpView {
    match seg {
        Segment::Copy { block, start } => DeltaOpView::Copy {
            block_index: blocks[block].index,
            len: blocks[block].len,
        },
        Segment::Literal { start, end } => DeltaOpView::Literal {
            data_b64: base64_standard(src.subrange(start, end)),
        },
    }
}

/// The number of source bytes that the copy segments cover.
pub open spec fn copy_total(segs: Seq<Segment>, bs: int) -> int
    decreases segs.len(),
{
    if segs.len() == 0 {
        0
    } else {
        (if segs[0] is Copy {
            bs
        } else {
            0
        }) + copy_total(segs.drop_first(), bs)
    }
}

/// The number of source bytes that the literal segments cover.
pub open spec fn literal_total(segs: Seq<Segment>) -> int
    decreases segs.len(),
{
    if segs.len() == 0 {
        0
    } else {
        (match segs[0] {
            Segment::Literal { start, end } => end - start,
            Segment::Copy { .. } => 0,
        }) + literal_total(segs.drop_first())
    }
}

/// Where a segment starts.
pub open spec fn segment_start(seg: Segment) -> int {
    match seg {
        Segment::Copy { start, .. } => start,
        Segment::Literal { start, .. } => start,
    }
}

/// Where a segment ends.
pub open spec fn segment_end(seg: Segment, bs: int) -> int {
    match seg {
        Segment::Copy { start, .. } => start + bs,
        Segment::Literal { end, .. } => end,
    }
}

/// The segments cover `from .. to` without gap or overlap, in order, each
/// with at least one byte.
pub open spec fn tiles(segs: Seq<Segment>, bs: int, from: int, to: int) -> bool
    decreases segs.len(),
{
    if segs.len() == 0 {
        from == to
    } else {
        &&& segment_start(segs[0]) == from
        &&& segment_end(segs[0], bs) > from
        &&& tiles(segs.drop_first(), bs, segment_end(segs[0], bs), to)
    }
}

/// Every copy segment names a block of the signature that accepts the
/// source window it stands for.
pub open spec fn copies_accepted(
    segs: Seq<Segment>,
    src: Seq<u8>,
    bs: int,
    blocks: Seq<BlockSigWire>,
) -> bool {
    forall|k: int|
        0 <= k < segs.len() ==> match #[trigger] segs[k] {
            Segment::Copy { block, start } => {
                &&& 0 <= block < blocks.len()
                &&& 0 <= start
                &&& start + bs <= src.len()
                &&& block_accepts(
                    blocks[block],
                    bs,
                    weak_checksum(window(src, start, bs)),
                    strong_digest(window(src, start, bs)),
                )
            },
            Segment::Literal { .. } => true,
        }
}

/// No two literal segments follow each other: each literal run is as long
/// as it can be.
pub open spec fn literals_separated(segs: Seq<Segment>) -> bool {
    forall|k: int, m: int|
        #![trigger segs[k], segs[m]]
        0 <= k && m == k + 1 && m < segs.len() ==> !(segs[k] is Literal && segs[m] is Literal)
}

/// The blocks with weak checksum `w` among blocks `0 .. n`, in order.
pub open spec fn indices_with_weak(blocks: Seq<BlockSigWire>, w: u32, n: nat) -> Seq<usize>
    decreases n,
{
    if n == 0 {
        Seq::empty()
    } else {
        let rest = indices_with_weak(blocks, w, (n - 1) as nat);
        if blocks[n - 1].weak == w {
            rest.push((n - 1) as usize)
        } else {
            rest
        }
    }
}

/// Among the listed blocks, in list order, the first one of length `bs`
/// whose strong hash text parses to `strong`.
pub open spec fn first_listed(
    blocks: Seq<BlockSigWire>,
    list: Seq<usize>,
    bs: int,
    strong: int,
) -> Option<int>
    decreases list.len(),
{
    if list.len() == 0 {
        None
    } else {
        match first_listed(blocks, list.drop_last(), bs, strong) {
            Some(j) => Some(j),
            None => {
                let b = blocks[list.last() as int];
                if b.len as int == bs && hex_u128_text_value(encode_utf8(b.strong_hex@)) == Some(
                    strong,
                ) {
                    Some(list.last() as int)
                } else {
                    None
                }
            },
        }
    }
}

proof fn lemma_indices_bounded(blocks: Seq<BlockSigWire>, w: u32, n: nat)
    requires
        n <= blocks.len(),
        blocks.len() <= usize::MAX,
    ensures
        forall|k: int|
            0 <= k < indices_with_weak(blocks, w, n).len() ==> (#[trigger] indices_with_weak(
                blocks,
                w,
                n,
            )[k] as int) < n,
    decreases n,
{
    if n > 0 {
        lemma_indices_bounded(blocks, w, (n - 1) as nat);
        let rest = indices_with_weak(blocks, w, (n - 1) as nat);
        let all = indices_with_weak(blocks, w, n);
        assert forall|k: int| 0 <= k < all.len() implies (#[trigger] all[k] as int) < n by {
            if k < rest.len() {
                assert(all[k] == rest[k]);
            }
        }
    }
}

proof fn lemma_first_listed_is_first_accepting(
    blocks: Seq<BlockSigWire>,
    w: u32,
    n: nat,
    bs: int,
    strong: int,
)
    requires
        n <= blocks.len(),
        blocks.len() <= usize::MAX,
    ensures
        first_listed(blocks, indices_with_weak(blocks, w, n), bs, strong) == first_accepting(
            blocks,
            n,
            bs,
            w as int,
            strong,
        ),
    decreases n,
{
    if n > 0 {
        lemma_first_listed_is_first_accepting(blocks, w, (n - 1) as nat, bs, strong);
        let rest = indices_with_weak(blocks, w, (n - 1) as nat);
        if blocks[n - 1].weak == w {
            assert(rest.push((n - 1) as usize).drop_last() =~= rest);
        }
    }
}

proof fn lemma_first_listed_prefix(
    blocks: Seq<BlockSigWire>,
    list: Seq<usize>,
    bs: int,
    strong: int,
    k: int,
)
    requires
        0 <= k <= list.len(),
        first_listed(blocks, list.take(k), bs, strong) is Some,
    ensures
        first_listed(blocks, list, bs, strong) == first_listed(blocks, list.take(k), bs, strong),
    decreases list.len(),
{
    if k == list.len() {
        assert(list.take(k) =~= list);
    } else {
        assert(list.drop_last().take(k) =~= list.take(k));
        lemma_first_listed_prefix(blocks, list.drop_last(), bs, strong, k);
    }
}

proof fn lemma_first_accepting_accepts(
    blocks: Seq<BlockSigWire>,
    n: nat,
    bs: int,
    weak: int,
    strong: int,
)
    requires
        n <= blocks.len(),
    ensures
        match first_accepting(blocks, n, bs, weak, strong) {
            Some(j) => 0 <= j < n && block_accepts(blocks[j], bs, weak, strong),
            None => true,
        },
    decreases n,
{
    if n > 0 {
        lemma_first_accepting_accepts(blocks, (n - 1) as nat, bs, weak, strong);
    }
}

/// Groups the blocks by weak checksum: for each weak checksum that occurs,
/// the positions of the blocks that have it, in order.
fn index_by_weak(blocks: &[BlockSigWire]) -> (m: HashMap<u32, Vec<usize>>)
    ensures
        forall|w: u32|
            #![trigger m@.contains_key(w)]
            (m@.contains_key(w) ==> m@[w]@ == indices_with_weak(blocks@, w, blocks@.len()))
                && (!m@.contains_key(w) ==> indices_with_weak(blocks@, w, blocks@.len()).len()
                == 0),
{
    let mut m: HashMap<u32, Vec<usize>> = HashMap::new();
    let mut i: usize = 0;
    while i < blocks.len()
        invariant
            i <= blocks@.len(),
            forall|w: u32|
                #![trigger m@.contains_key(w)]
                (m@.contains_key(w) ==> m@[w]@ == indices_with_weak(blocks@, w, i as nat)) && (
                !m@.contains_key(w) ==> indices_with_weak(blocks@, w, i as nat).len() == 0),
        decreases blocks@.len() - i,
    {
        let w = blocks[i].weak;
        let mut list = match m.remove(&w) {
            Some(v) => v,
            None => Vec::new(),
        };
        list.push(i);
        m.insert(w, list);
        proof {
            assert forall|x: u32| #![trigger m@.contains_key(x)] (m@.contains_key(x) ==> m@[x]@
                == indices_with_weak(blocks@, x, (i + 1) as nat)) && (!m@.contains_key(x)
                ==> indices_with_weak(blocks@, x, (i + 1) as nat).len() == 0) by {
                if x == w {
                    if indices_with_weak(blocks@, x, i as nat).len() == 0 {
                        assert(indices_with_weak(blocks@, x, i as nat) =~= Seq::<usize>::empty());
                    }
                }
            }
        }
        i = i + 1;
    }
    m
}

/// Among the candidate blocks `candidates`, in that order, the first one of
/// length `block_size` whose strong hash text parses to `strong`: the match
/// for a source window whose strong hash is `strong`.
pub fn find_match(blocks: &[BlockSigWire], candidates: &[usize], block_size: usize, strong: u128) -> (r:
    Option<usize>)
    requires
        forall|k: int| 0 <= k < candidates@.len() ==> (#[trigger] candidates@[k] as int) < blocks@.len(),
    ensures
        match r {
            Some(j) => first_listed(blocks@, candidates@, block_size as int, strong as int) == Some(
                j as int,
            ),
            None => first_listed(blocks@, candidates@, block_size as int, strong as int) is None,
        },
{
    let mut k: usize = 0;
    assert(candidates@.take(0) =~= Seq::<usize>::empty());
    while k < candidates.len()
        invariant
            k <= candidates@.len(),
            forall|q: int| 0 <= q < candidates@.len() ==> (#[trigger] candidates@[q] as int) < blocks@.len(),
            first_listed(blocks@, candidates@.take(k as int), block_size as int, strong as int) is None,
        decreases candidates@.len() - k,
    {
        let j = candidates[k];
        let b = &blocks[j];
        let ghost next = candidates@.take(k as int + 1);
        assert(next.drop_last() =~= candidates@.take(k as int));
        if b.len as usize == block_size {
            let parsed = parse_hex_u128(b.strong_hex.as_str());
            if parsed == Some(strong) {
                proof {
                    lemma_first_listed_prefix(blocks@, candidates@, block_size as int, strong as int, k + 1);
                }
                return Some(j);
            }
        }
        k = k + 1;
    }
    assert(candidates@.take(candidates@.len() as int) =~= candidates@);
    None
}

proof fn lemma_tiles_totals(segs: Seq<Segment>, bs: int, from: int, to: int)
    requires
        tiles(segs, bs, from, to),
    ensures
        copy_total(segs, bs) + literal_total(segs) == to - from,
    decreases segs.len(),
{
    if segs.len() > 0 {
        lemma_tiles_totals(segs.drop_first(), bs, segment_end(segs[0], bs), to);
    }
}

proof fn lemma_segments_from_tile(src: Seq<u8>, bs: int, blocks: Seq<BlockSigWire>, i: int, lit: int)
    requires
        0 <= lit <= i <= src.len(),
    ensures
        tiles(segments_from(src, bs, blocks, i, lit), bs, lit, src.len() as int),
        copies_accepted(segments_from(src, bs, blocks, i, lit), src, bs, blocks),
        literals_separated(segments_from(src, bs, blocks, i, lit)),
    decreases src.len() - i,
{
    let segs = segments_from(src, bs, blocks, i, lit);
    let n = src.len() as int;
    if bs <= 0 || i < 0 || i + bs > n {
        if lit < n {
            let l = Segment::Literal { start: lit, end: n };
            assert(segs == seq![l]);
            assert(segs.drop_first() =~= Seq::<Segment>::empty());
            assert(tiles(segs.drop_first(), bs, n, n));
            assert(tiles(segs, bs, lit, n));
        } else {
            assert(segs =~= Seq::<Segment>::empty());
        }
    } else {
        match match_at(src, bs, blocks, i) {
            Some(j) => {
                let w = window(src, i, bs);
                lemma_first_accepting_accepts(
                    blocks,
                    blocks.len(),
                    bs,
                    weak_checksum(w),
                    strong_digest(w),
                );
                lemma_segments_from_tile(src, bs, blocks, i + bs, i + bs);
                let rest = segments_from(src, bs, blocks, i + bs, i + bs);
                let copy = Segment::Copy { block: j, start: i };
                let cr = seq![copy] + rest;
                assert(cr[0] == copy);
                assert(cr.drop_first() =~= rest);
                assert(tiles(cr, bs, i, n));
                assert(literals_separated(cr)) by {
                    assert forall|k: int, m: int|
                        #![trigger cr[k], cr[m]]
                        0 <= k && m == k + 1 && m < cr.len() implies !(cr[k] is Literal
                        && cr[m] is Literal) by {
                        if k > 0 {
                            assert(cr[k] == rest[k - 1]);
                            assert(cr[m] == rest[m - 1]);
                            assert(rest[k - 1] == rest[k - 1] && rest[m - 1] == rest[m - 1]);
                        }
                    }
                }
                assert(copies_accepted(cr, src, bs, blocks)) by {
                    assert forall|k: int| 0 <= k < cr.len() implies match #[trigger] cr[k] {
                        Segment::Copy { block, start } => {
                            &&& 0 <= block < blocks.len()
                            &&& 0 <= start
                            &&& start + bs <= src.len()
                            &&& block_accepts(
                                blocks[block],
                                bs,
                                weak_checksum(window(src, start, bs)),
                                strong_digest(window(src, start, bs)),
                            )
                        },
                        Segment::Literal { .. } => true,
                    } by {
                        if k > 0 {
                            assert(cr[k] == rest[k - 1]);
                        }
                    }
                }
                if lit < i {
                    let l = Segment::Literal { start: lit, end: i };
                    assert(segs =~= seq![l] + cr);
                    assert(segs[0] == l);
                    assert(segs.drop_first() =~= cr);
                    assert(tiles(segs, bs, lit, n));
                    assert forall|k: int, m: int|
                        #![trigger segs[k], segs[m]]
                        0 <= k && m == k + 1 && m < segs.len() implies !(segs[k] is Literal
                        && segs[m] is Literal) by {
                        if k == 0 {
                            assert(segs[m] == cr[0]);
                        } else {
                            assert(segs[k] == cr[k - 1]);
                            assert(segs[m] == cr[m - 1]);
                            assert(cr[k - 1] == cr[k - 1] && cr[m - 1] == cr[m - 1]);
                        }
                    }
                    assert forall|k: int| 0 <= k < segs.len() implies match #[trigger] segs[k] {
                        Segment::Copy { block, start } => {
                            &&& 0 <= block < blocks.len()
                            &&& 0 <= start
                            &&& start + bs <= src.len()
                            &&& block_accepts(
                                blocks[block],
                                bs,
                                weak_checksum(window(src, start, bs)),
                                strong_digest(window(src, start, bs)),
                            )
                        },
                        Segment::Literal { .. } => true,
                    } by {
                        if k > 0 {
                            assert(segs[k] == cr[k - 1]);
                        }
                    }
                } else {
                    assert(segs =~= cr);
                }
            },
            None => {
                lemma_segments_from_tile(src, bs, blocks, i + 1, lit);
            },
        }
    }
}

/// The matcher cuts the whole source into segments that follow each other
/// without gap or overlap from its first byte to its last; every copy names
/// a block of the signature that accepts the window it stands for (same
/// length and weak checksum, strong hash text that parses to the window's
/// strong hash); no two literal runs follow each other; and the copied and
/// literal bytes add up to the source's length.
pub proof fn lemma_delta_segments_tile(src: Seq<u8>, bs: int, blocks: Seq<BlockSigWire>)
    ensures
        tiles(delta_segments(src, bs, blocks), bs, 0, src.len() as int),
        copies_accepted(delta_segments(src, bs, blocks), src, bs, blocks),
        literals_separated(delta_segments(src, bs, blocks)),
        copy_total(delta_segments(src, bs, blocks), bs) + literal_total(
            delta_segments(src, bs, blocks),
        ) == src.len(),
{
    lemma_segments_from_tile(src, bs, blocks, 0, 0);
    lemma_tiles_totals(delta_segments(src, bs, blocks), bs, 0, src.len() as int);
}

proof fn lemma_copy_total_push(segs: Seq<Segment>, x: Segment, bs: int)
    ensures
        copy_total(segs.push(x), bs) == copy_total(segs, bs) + (if x is Copy {
            bs
        } else {
            0
        }),
    decreases segs.len(),
{
    let c: int = if x is Copy {
        bs
    } else {
        0
    };
    if segs.len() == 0 {
        let one = segs.push(x);
        assert(one.drop_first() =~= Seq::<Segment>::empty());
        assert(copy_total(one.drop_first(), bs) == 0);
        assert(one[0] == x);
        assert(copy_total(one, bs) == c + copy_total(one.drop_first(), bs));
        assert(copy_total(segs, bs) == 0);
    } else {
        assert(segs.push(x).drop_first() =~= segs.drop_first().push(x));
        assert(segs.push(x)[0] == segs[0]);
        lemma_copy_total_push(segs.drop_first(), x, bs);
    }
}

proof fn lemma_base64_len_mono(m: int, n: int)
    requires
        0 <= m <= n,
    ensures
        base64_len(m) <= base64_len(n),
{
    let q1 = m / 3;
    let q2 = n / 3;
    vstd::arithmetic::div_mod::lemma_div_is_ordered(m, n, 3);
    vstd::arithmetic::div_mod::lemma_fundamental_div_mod(m, 3);
    vstd::arithmetic::div_mod::lemma_fundamental_div_mod(n, 3);
    if q1 < q2 {
        assert(q1 * 4 + 4 <= q2 * 4);
    } else {
        assert(m % 3 <= n % 3);
    }
}

/// The delta of `source` against a basis signature: the source cut into
/// copies of basis blocks and literal runs as `delta_segments` describes,
/// each literal run sent as base64 text, with the number of copied and
/// literal bytes and the strong digest of the whole source as 32 lower-case
/// hexadecimal digits.
pub fn build_delta_ops(
    source: &[u8],
    source_mtime_secs: i64,
    block_size: u32,
    blocks: &[BlockSigWire],
) -> (resp: HelperResponse)
    requires
        base64_len(source@.len() as int) <= usize::MAX,
    ensures
        resp.protocol_version == 1,
        resp.source_size == source@.len(),
        resp.source_mtime_secs == source_mtime_secs,
        resp.ops@.len() == delta_segments(source@, block_size as int, blocks@).len(),
        forall|k: int|
            0 <= k < resp.ops@.len() ==> (#[trigger] resp.ops@[k])@ == segment_op(
                source@,
                blocks@,
                delta_segments(source@, block_size as int, blocks@)[k],
            ),
        resp.copy_bytes == copy_total(delta_segments(source@, block_size as int, blocks@), block_size as int),
        resp.literal_bytes == source@.len() - resp.copy_bytes,
        resp.final_digest_hex@ == hex_fixed(strong_digest(source@), 32),
        block_size > 0 ==> scan_is_exhaustive(
            delta_segments(source@, block_size as int, blocks@),
            source@,
            block_size as int,
            blocks@,
        ),
{
    let n = source.len();
    let bs = block_size as usize;
    let ghost src = source@;
    let ghost total = delta_segments(src, bs as int, blocks@);
    let index = index_by_weak(blocks);
    let mut ops: Vec<DeltaOp> = Vec::new();
    let ghost mut done: Seq<Segment> = Seq::empty();
    let mut i: usize = 0;
    let mut literal_start: usize = 0;
    let mut copy_bytes: u64 = 0;
    assert(total == done + segments_from(src, bs as int, blocks@, 0, 0));
    assert(blocks@.len() == blocks.len());
    if bs > 0 && bs <= n {
        let mut rolling = RollingChecksum::new(vstd::slice::slice_subrange(source, 0, bs));
        while i <= n - bs
            invariant
                bs > 0,
                bs <= n,
                n == src.len(),
                src == source@,
                bs == block_size,
                literal_start <= i,
                i <= n,
                copy_bytes as int == copy_total(done, bs as int),
                copy_bytes <= literal_start,
                total == delta_segments(src, bs as int, blocks@),
                total == done + segments_from(src, bs as int, blocks@, i as int, literal_start as int),
                ops@.len() == done.len(),
                forall|k: int|
                    0 <= k < ops@.len() ==> (#[trigger] ops@[k])@ == segment_op(src, blocks@, done[k]),
                i <= n - bs ==> rolling@ == window_state(window(src, i as int, bs as int)),
                forall|w: u32|
                    #![trigger index@.contains_key(w)]
                    (index@.contains_key(w) ==> index@[w]@ == indices_with_weak(
                        blocks@,
                        w,
                        blocks@.len(),
                    )) && (!index@.contains_key(w) ==> indices_with_weak(
                        blocks@,
                        w,
                        blocks@.len(),
                    ).len() == 0),
                base64_len(n as int) <= usize::MAX,
                blocks@.len() <= usize::MAX,
            decreases n - i,
        {
            let weak = rolling.sum();
            let win = vstd::slice::slice_subrange(source, i, i + bs);
            let ghost wv = window(src, i as int, bs as int);
            assert(win@ == wv);
            assert(weak as int == weak_checksum(wv));
            let matched: Option<usize> = match index.get(&weak) {
                Some(cands) => {
                    let strong = strong_hash128(win);
                    proof {
                        lemma_indices_bounded(blocks@, weak, blocks@.len());
                        lemma_first_listed_is_first_accepting(
                            blocks@,
                            weak,
                            blocks@.len(),
                            bs as int,
                            strong as int,
                        );
                    }
                    find_match(blocks, cands.as_slice(), bs, strong)
                },
                None => {
                    proof {
                        let e = indices_with_weak(blocks@, weak, blocks@.len());
                        assert(e =~= Seq::<usize>::empty());
                        lemma_first_listed_is_first_accepting(
                            blocks@,
                            weak,
                            blocks@.len(),
                            bs as int,
                            strong_digest(wv),
                        );
                    }
                    None
                },
            };
            proof {
                lemma_first_accepting_accepts(
                    blocks@,
                    blocks@.len(),
                    bs as int,
                    weak_checksum(wv),
                    strong_digest(wv),
                );
            }
            assert(match matched {
                Some(j) => match_at(src, bs as int, blocks@, i as int) == Some(j as int),
                None => match_at(src, bs as int, blocks@, i as int) is None,
            });
            match matched {
                Some(j) => {
                    let ghost rest = segments_from(src, bs as int, blocks@, i + bs, i + bs);
                    let ghost pending = if literal_start < i {
                        seq![Segment::Literal { start: literal_start as int, end: i as int }]
                    } else {
                        seq![]
                    };
                    let ghost copy = Segment::Copy { block: j as int, start: i as int };
                    assert(segments_from(src, bs as int, blocks@, i as int, literal_start as int)
                        == pending.push(copy) + rest);
                    let ghost before = done;
                    if literal_start < i {
                        let lit = vstd::slice::slice_subrange(source, literal_start, i);
                        proof {
                            lemma_base64_len_mono(lit@.len() as int, n as int);
                        }
                        ops.push(DeltaOp::Literal { data_b64: encode_base64(lit) });
                        proof {
                            lemma_copy_total_push(done, pending[0], bs as int);
                            done = done.push(pending[0]);
                        }
                    }
                    assert(done =~= before + pending);
                    ops.push(DeltaOp::Copy { block_index: blocks[j].index, len: blocks[j].len });
                    proof {
                        lemma_copy_total_push(done, copy, bs as int);
                        done = done.push(copy);
                        assert(total =~= done + rest);
                    }
                    copy_bytes = copy_bytes + blocks[j].len as u64;
                    i = i + bs;
                    literal_start = i;
                    if i <= n - bs {
                        rolling = RollingChecksum::new(vstd::slice::slice_subrange(source, i, i + bs));
                    }
                },
                None => {
                    i = i + 1;
                    if i <= n - bs {
                        proof {
                            let prev = window(src, i - 1, bs as int);
                            lemma_roll_matches_recompute(prev, src[i + bs - 1]);
                            assert(prev.drop_first().push(src[i + bs - 1]) =~= window(
                                src,
                                i as int,
                                bs as int,
                            ));
                        }
                        rolling.roll(source[i - 1], source[i + bs - 1]);
                    }
                },
            }
        }
    }
    assert(bs == 0 || i + bs > n);
    assert(total == done + segments_from(src, bs as int, blocks@, i as int, literal_start as int));
    if literal_start < n {
        let lit = vstd::slice::slice_subrange(source, literal_start, n);
        proof {
            lemma_base64_len_mono(lit@.len() as int, n as int);
        }
        ops.push(DeltaOp::Literal { data_b64: encode_base64(lit) });
        proof {
            let last = Segment::Literal { start: literal_start as int, end: n as int };
            lemma_copy_total_push(done, last, bs as int);
            done = done.push(last);
        }
    }
    assert(total =~= done);
    proof {
        if bs > 0 {
            lemma_delta_scan_is_exhaustive(src, bs as int, blocks@);
        }
    }
    let final_digest = strong_hash128(source);
    HelperResponse {
        protocol_version: 1,
        source_size: n as u64,
        source_mtime_secs,
        ops,
        final_digest_hex: hex_u128(final_digest),
        literal_bytes: (n as u64) - copy_bytes,
        copy_bytes,
    }
}

proof fn lemma_first_accepting_some(
    blocks: Seq<BlockSigWire>,
    n: nat,
    bs: int,
    weak: int,
    strong: int,
    j: int,
)
    requires
        0 <= j < n <= blocks.len(),
        block_accepts(blocks[j], bs, weak, strong),
    ensures
        first_accepting(blocks, n, bs, weak, strong) is Some,
    decreases n,
{
    if j < n - 1 {
        lemma_first_accepting_some(blocks, (n - 1) as nat, bs, weak, strong, j);
    }
}

/// The signature entry, as it travels on the wire, of block `k` of `data` at
/// block size `bs`: what `BlockSig::to_wire` makes of the entry that
/// `build_signature_from_bytes` computes.
pub open spec fn wire_describes_block(w: BlockSigWire, data: Seq<u8>, bs: int, k: int) -> bool {
    let b = block_bytes(data, bs, k);
    &&& w.index == k
    &&& w.len == b.len()
    &&& w.weak == weak_checksum(b)
    &&& 0 <= strong_digest(b) < 0x1_0000_0000_0000_0000_0000_0000_0000_0000
    &&& w.strong_hex@ == hex_fixed(strong_digest(b), 32)
}

proof fn lemma_first_accepting_least(
    blocks: Seq<BlockSigWire>,
    n: nat,
    bs: int,
    weak: int,
    strong: int,
)
    ensures
        match first_accepting(blocks, n, bs, weak, strong) {
            Some(j) => forall|i: int| 0 <= i < j ==> !block_accepts(#[trigger] blocks[i], bs, weak, strong),
            None => forall|i: int| 0 <= i < n ==> !block_accepts(#[trigger] blocks[i], bs, weak, strong),
        },
    decreases n,
{
    if n > 0 {
        lemma_first_accepting_least(blocks, (n - 1) as nat, bs, weak, strong);
    }
}

/// No block of the signature accepts the window of `src` at `p`.
pub open spec fn no_block_accepts(src: Seq<u8>, bs: int, blocks: Seq<BlockSigWire>, p: int) -> bool {
    forall|b: int|
        0 <= b < blocks.len() ==> !block_accepts(
            #[trigger] blocks[b],
            bs,
            weak_checksum(window(src, p, bs)),
            strong_digest(window(src, p, bs)),
        )
}

/// The scan misses nothing: at every position inside a literal run where a
/// whole window of `bs` bytes fits, no block of the signature accepts the
/// window; and every copy names the first block that accepts its window.
pub open spec fn scan_is_exhaustive(
    segs: Seq<Segment>,
    src: Seq<u8>,
    bs: int,
    blocks: Seq<BlockSigWire>,
) -> bool {
    forall|k: int|
        0 <= k < segs.len() ==> match #[trigger] segs[k] {
            Segment::Literal { start, end } => forall|p: int|
                start <= p < end && p + bs <= src.len() ==> #[trigger] no_block_accepts(
                    src,
                    bs,
                    blocks,
                    p,
                ),
            Segment::Copy { block, start } => forall|b: int|
                0 <= b < block ==> !block_accepts(
                    #[trigger] blocks[b],
                    bs,
                    weak_checksum(window(src, start, bs)),
                    strong_digest(window(src, start, bs)),
                ),
        }
}

proof fn lemma_segments_from_exhaustive(
    src: Seq<u8>,
    bs: int,
    blocks: Seq<BlockSigWire>,
    i: int,
    lit: int,
)
    requires
        bs > 0,
        0 <= lit <= i,
        forall|p: int| lit <= p < i ==> #[trigger] no_block_accepts(src, bs, blocks, p),
    ensures
        scan_is_exhaustive(segments_from(src, bs, blocks, i, lit), src, bs, blocks),
    decreases src.len() - i,
{
    let segs = segments_from(src, bs, blocks, i, lit);
    let n = src.len() as int;
    if i + bs > n {
        if lit < n {
            let l = Segment::Literal { start: lit, end: n };
            assert(segs == seq![l]);
            assert forall|k: int| 0 <= k < segs.len() implies match #[trigger] segs[k] {
                Segment::Literal { start, end } => forall|p: int|
                    start <= p < end && p + bs <= src.len() ==> #[trigger] no_block_accepts(
                        src,
                        bs,
                        blocks,
                        p,
                    ),
                Segment::Copy { block, start } => forall|b: int|
                    0 <= b < block ==> !block_accepts(
                        #[trigger] blocks[b],
                        bs,
                        weak_checksum(window(src, start, bs)),
                        strong_digest(window(src, start, bs)),
                    ),
            } by {
                assert(segs[k] == l);
            }
        } else {
            assert(segs =~= Seq::<Segment>::empty());
        }
    } else {
        let w = window(src, i, bs);
        lemma_first_accepting_least(blocks, blocks.len(), bs, weak_checksum(w), strong_digest(w));
        match match_at(src, bs, blocks, i) {
            Some(j) => {
                lemma_segments_from_exhaustive(src, bs, blocks, i + bs, i + bs);
                let rest = segments_from(src, bs, blocks, i + bs, i + bs);
                let copy = Segment::Copy { block: j, start: i };
                let pending = if lit < i {
                    seq![Segment::Literal { start: lit, end: i }]
                } else {
                    seq![]
                };
                assert(segs == pending.push(copy) + rest);
                let h = pending.len() as int;
                assert forall|k: int| 0 <= k < segs.len() implies match #[trigger] segs[k] {
                    Segment::Literal { start, end } => forall|p: int|
                        start <= p < end && p + bs <= src.len() ==> #[trigger] no_block_accepts(
                            src,
                            bs,
                            blocks,
                            p,
                        ),
                    Segment::Copy { block, start } => forall|b: int|
                        0 <= b < block ==> !block_accepts(
                            #[trigger] blocks[b],
                            bs,
                            weak_checksum(window(src, start, bs)),
                            strong_digest(window(src, start, bs)),
                        ),
                } by {
                    if k < h {
                        assert(segs[k] == Segment::Literal { start: lit, end: i });
                    } else if k == h {
                        assert(segs[k] == copy);
                    } else {
                        assert(segs[k] == rest[k - h - 1]);
                    }
                }
            },
            None => {
                assert(no_block_accepts(src, bs, blocks, i));
                lemma_segments_from_exhaustive(src, bs, blocks, i + 1, lit);
            },
        }
    }
}

/// The matcher tries every position of the source: at every position inside
/// a literal run of the delta where a whole window of `bs` bytes fits, no
/// block of the signature accepts that window (after a window that matches
/// nothing, the scan tries the very next position), and every copy names
/// the first block of the signature that accepts the window it stands for.
pub proof fn lemma_delta_scan_is_exhaustive(src: Seq<u8>, bs: int, blocks: Seq<BlockSigWire>)
    requires
        bs > 0,
    ensures
        scan_is_exhaustive(delta_segments(src, bs, blocks), src, bs, blocks),
{
    lemma_segments_from_exhaustive(src, bs, blocks, 0, 0);
}

/// The block that the matcher copies for the `k`-th aligned window of
/// `data` (the window at `k * bs`), or -1 when none matches.
pub open spec fn aligned_block(data: Seq<u8>, bs: int, blocks: Seq<BlockSigWire>, k: int) -> int {
    match match_at(data, bs, blocks, k * bs) {
        Some(j) => j,
        None => -1,
    }
}

/// Copies of the aligned windows `from .. to` of `data`, each naming the
/// block that matches it.
pub open spec fn aligned_copies(
    data: Seq<u8>,
    bs: int,
    blocks: Seq<BlockSigWire>,
    from: int,
    to: int,
) -> Seq<Segment> {
    Seq::new(
        (to - from) as nat,
        |t: int| Segment::Copy { block: aligned_block(data, bs, blocks, from + t), start: (from + t) * bs },
    )
}

/// The literal run of the bytes after the last full block, if there are any.
pub open spec fn tail_literal(data: Seq<u8>, bs: int) -> Seq<Segment> {
    if (data.len() as int) % bs > 0 {
        seq![Segment::Literal { start: ((data.len() as int) / bs) * bs, end: data.len() as int }]
    } else {
        seq![]
    }
}

/// The segments of an unchanged source: one copy per full block, in order,
/// then the bytes after the last full block as one literal run.
pub open spec fn unchanged_segments(data: Seq<u8>, bs: int, blocks: Seq<BlockSigWire>) -> Seq<
    Segment,
> {
    aligned_copies(data, bs, blocks, 0, (data.len() as int) / bs) + tail_literal(data, bs)
}

proof fn lemma_aligned_step(data: Seq<u8>, bs: int, blocks: Seq<BlockSigWire>, k: int)
    requires
        bs > 0,
        0 <= k,
        k * bs + bs <= data.len(),
        k < blocks.len(),
        wire_describes_block(blocks[k], data, bs, k),
    ensures
        copy_total(segments_from(data, bs, blocks, k * bs, k * bs), bs) == bs + copy_total(
            segments_from(data, bs, blocks, k * bs + bs, k * bs + bs),
            bs,
        ),
        segments_from(data, bs, blocks, k * bs, k * bs) == seq![
            Segment::Copy { block: aligned_block(data, bs, blocks, k), start: k * bs },
        ] + segments_from(data, bs, blocks, k * bs + bs, k * bs + bs),
        ({
            let w = window(data, k * bs, bs);
            let j = aligned_block(data, bs, blocks, k);
            &&& match_at(data, bs, blocks, k * bs) is Some
            &&& 0 <= j <= k
            &&& block_accepts(blocks[j], bs, weak_checksum(w), strong_digest(w))
            &&& forall|i: int|
                0 <= i < j ==> !block_accepts(#[trigger] blocks[i], bs, weak_checksum(w), strong_digest(w))
        }),
{
    let i = k * bs;
    assert(0 <= i) by (nonlinear_arith)
        requires
            bs > 0,
            k >= 0,
            i == k * bs,
    ;
    let w = window(data, i, bs);
    let b = block_bytes(data, bs, k);
    assert(b =~= w);
    lemma_hex_fixed_parses(strong_digest(b));
    assert(block_accepts(blocks[k], bs, weak_checksum(w), strong_digest(w)));
    lemma_first_accepting_some(blocks, blocks.len(), bs, weak_checksum(w), strong_digest(w), k);
    lemma_first_accepting_least(blocks, blocks.len(), bs, weak_checksum(w), strong_digest(w));
    lemma_first_accepting_accepts(blocks, blocks.len(), bs, weak_checksum(w), strong_digest(w));
    let j = match_at(data, bs, blocks, i)->0;
    assert(j == aligned_block(data, bs, blocks, k));
    assert(j <= k) by {
        if j > k {
            assert(!block_accepts(blocks[k], bs, weak_checksum(w), strong_digest(w)));
        }
    }
    let segs = segments_from(data, bs, blocks, i, i);
    let rest = segments_from(data, bs, blocks, i + bs, i + bs);
    let copy = Segment::Copy { block: j, start: i };
    let pending: Seq<Segment> = seq![];
    assert(segs == pending.push(copy) + rest);
    assert(segs =~= seq![copy] + rest);
    assert(segs[0] == copy);
    assert(segs.drop_first() =~= rest);
}

proof fn lemma_aligned_copies(data: Seq<u8>, bs: int, blocks: Seq<BlockSigWire>, k: int)
    requires
        bs > 0,
        0 <= k <= (data.len() as int) / bs,
        blocks.len() >= (data.len() as int) / bs,
        forall|q: int|
            0 <= q < (data.len() as int) / bs ==> wire_describes_block(
                #[trigger] blocks[q],
                data,
                bs,
                q,
            ),
    ensures
        copy_total(segments_from(data, bs, blocks, k * bs, k * bs), bs) == ((data.len() as int)
            / bs - k) * bs,
    decreases (data.len() as int) / bs - k,
{
    let n = data.len() as int;
    let full = n / bs;
    let i = k * bs;
    vstd::arithmetic::div_mod::lemma_fundamental_div_mod(n, bs);
    assert((k + 1) * bs == i + bs) by (nonlinear_arith)
        requires
            i == k * bs,
    ;
    assert(i + bs <= n <==> k < full) by (nonlinear_arith)
        requires
            bs > 0,
            n == bs * full + n % bs,
            0 <= n % bs < bs,
            i == k * bs,
            0 <= k <= full,
    ;
    if k == full {
        let segs = segments_from(data, bs, blocks, i, i);
        if i < n {
            assert(segs == seq![Segment::Literal { start: i, end: n }]);
            assert(segs.drop_first() =~= Seq::<Segment>::empty());
            assert(copy_total(segs.drop_first(), bs) == 0);
        } else {
            assert(segs =~= Seq::<Segment>::empty());
        }
        assert(copy_total(segs, bs) == 0);
        assert((full - k) * bs == 0);
    } else {
        assert(wire_describes_block(blocks[k], data, bs, k));
        lemma_aligned_step(data, bs, blocks, k);
        lemma_aligned_copies(data, bs, blocks, k + 1);
        assert((full - k - 1) * bs + bs == (full - k) * bs) by (nonlinear_arith);
    }
}

proof fn lemma_aligned_segments(data: Seq<u8>, bs: int, blocks: Seq<BlockSigWire>, k: int)
    requires
        bs > 0,
        0 <= k <= (data.len() as int) / bs,
        blocks.len() >= (data.len() as int) / bs,
        forall|q: int|
            0 <= q < (data.len() as int) / bs ==> wire_describes_block(
                #[trigger] blocks[q],
                data,
                bs,
                q,
            ),
    ensures
        segments_from(data, bs, blocks, k * bs, k * bs) == aligned_copies(
            data,
            bs,
            blocks,
            k,
            (data.len() as int) / bs,
        ) + tail_literal(data, bs),
    decreases (data.len() as int) / bs - k,
{
    let n = data.len() as int;
    let full = n / bs;
    let i = k * bs;
    vstd::arithmetic::div_mod::lemma_fundamental_div_mod(n, bs);
    assert((k + 1) * bs == i + bs) by (nonlinear_arith)
        requires
            i == k * bs,
    ;
    assert(i + bs <= n <==> k < full) by (nonlinear_arith)
        requires
            bs > 0,
            n == bs * full + n % bs,
            0 <= n % bs < bs,
            i == k * bs,
            0 <= k <= full,
    ;
    let segs = segments_from(data, bs, blocks, i, i);
    if k == full {
        assert(i == full * bs);
        vstd::arithmetic::mul::lemma_mul_is_commutative(bs, full);
        assert(aligned_copies(data, bs, blocks, k, full) =~= Seq::<Segment>::empty());
        if i < n {
            assert(n % bs > 0);
            assert(segs == seq![Segment::Literal { start: i, end: n }]);
        } else {
            assert(n % bs == 0);
            assert(segs =~= Seq::<Segment>::empty());
        }
        assert(segs =~= aligned_copies(data, bs, blocks, k, full) + tail_literal(data, bs));
    } else {
        lemma_aligned_step(data, bs, blocks, k);
        lemma_aligned_segments(data, bs, blocks, k + 1);
        let c = Segment::Copy { block: aligned_block(data, bs, blocks, k), start: k * bs };
        let rest = aligned_copies(data, bs, blocks, k + 1, full);
        let all = aligned_copies(data, bs, blocks, k, full);
        assert(seq![c] + rest =~= all) by {
            assert forall|t: int| 0 <= t < all.len() implies (seq![c] + rest)[t] == all[t] by {
                if t > 0 {
                    assert((seq![c] + rest)[t] == rest[t - 1]);
                    assert(k + 1 + (t - 1) == k + t);
                }
            }
        }
        assert(segs =~= all + tail_literal(data, bs));
    }
}

/// A source that is the basis itself, matched against the basis's own
/// signature, is sent as copies of all its full blocks: the segments are one
/// copy per full block, in order, the `k`-th standing for the window at
/// `k * bs`, then one literal run of the bytes after the last full block when
/// there are any. The `k`-th copy names the first block that accepts that
/// window, which is block `k` itself or an earlier block that accepts it too
/// (a repeated block); it is block `k` whenever no earlier block accepts the
/// window. That block's index and length on the wire are its position and
/// `bs`.
pub proof fn lemma_unchanged_source_is_copied(data: Seq<u8>, bs: int, blocks: Seq<BlockSigWire>)
    requires
        bs > 0,
        blocks.len() >= (data.len() as int) / bs,
        forall|q: int|
            0 <= q < (data.len() as int) / bs ==> wire_describes_block(
                #[trigger] blocks[q],
                data,
                bs,
                q,
            ),
    ensures
        delta_segments(data, bs, blocks) == unchanged_segments(data, bs, blocks),
        forall|k: int|
            #![trigger aligned_block(data, bs, blocks, k)]
            0 <= k < (data.len() as int) / bs ==> {
                let w = window(data, k * bs, bs);
                let j = aligned_block(data, bs, blocks, k);
                &&& 0 <= j <= k
                &&& blocks[j].index == j
                &&& blocks[j].len == bs
                &&& block_accepts(blocks[j], bs, weak_checksum(w), strong_digest(w))
                &&& forall|i: int|
                    0 <= i < j ==> !block_accepts(
                        #[trigger] blocks[i],
                        bs,
                        weak_checksum(w),
                        strong_digest(w),
                    )
                &&& (forall|i: int|
                    0 <= i < k ==> !block_accepts(
                        #[trigger] blocks[i],
                        bs,
                        weak_checksum(w),
                        strong_digest(w),
                    )) ==> j == k
            },
        copy_total(delta_segments(data, bs, blocks), bs) == ((data.len() as int) / bs) * bs,
        literal_total(delta_segments(data, bs, blocks)) == (data.len() as int) % bs,
{
    vstd::arithmetic::div_mod::lemma_div_pos_is_pos(data.len() as int, bs);
    lemma_aligned_segments(data, bs, blocks, 0);
    assert(0 * bs == 0);
    assert forall|k: int|
        #![trigger aligned_block(data, bs, blocks, k)]
        0 <= k < (data.len() as int) / bs implies {
            let w = window(data, k * bs, bs);
            let j = aligned_block(data, bs, blocks, k);
            &&& 0 <= j <= k
            &&& blocks[j].index == j
            &&& blocks[j].len == bs
            &&& block_accepts(blocks[j], bs, weak_checksum(w), strong_digest(w))
            &&& forall|i: int|
                0 <= i < j ==> !block_accepts(
                    #[trigger] blocks[i],
                    bs,
                    weak_checksum(w),
                    strong_digest(w),
                )
            &&& (forall|i: int|
                0 <= i < k ==> !block_accepts(
                    #[trigger] blocks[i],
                    bs,
                    weak_checksum(w),
                    strong_digest(w),
                )) ==> j == k
        } by {
        let n = data.len() as int;
        vstd::arithmetic::div_mod::lemma_fundamental_div_mod(n, bs);
        assert(k * bs + bs <= n) by (nonlinear_arith)
            requires
                bs > 0,
                n == bs * (n / bs) + n % bs,
                0 <= n % bs,
                0 <= k < n / bs,
        ;
        assert(wire_describes_block(blocks[k], data, bs, k));
        lemma_aligned_step(data, bs, blocks, k);
        let j = aligned_block(data, bs, blocks, k);
        assert(wire_describes_block(blocks[j], data, bs, j));
        assert(j * bs + bs <= n) by (nonlinear_arith)
            requires
                bs > 0,
                0 <= j <= k,
                k * bs + bs <= n,
        ;
    }
    lemma_aligned_copies(data, bs, blocks, 0);
    lemma_delta_segments_tile(data, bs, blocks);
    vstd::arithmetic::div_mod::lemma_fundamental_div_mod(data.len() as int, bs);
    vstd::arithmetic::mul::lemma_mul_is_commutative(bs, data.len() as int / bs);
}

} // verus!
