//! The weak rolling checksum (an Adler-style pair of sums modulo 2^16) and
//! the strong per-block hash.
use vstd::prelude::*;

verus! {

use vstd::arithmetic::div_mod::{
    lemma_add_mod_noop,
    lemma_mod_add_multiples_vanish,
    lemma_mul_mod_noop_left,
    lemma_sub_mod_noop,
};

/// Both halves of the weak checksum are kept modulo this value.
const MOD: u32 = 65536;

/// Sum of the bytes of `w`.
pub open spec fn byte_sum(w: Seq<u8>) -> int
    decreases w.len(),
{
    if w.len() == 0 {
        0
    } else {
        byte_sum(w.drop_last()) + w.last() as int
    }
}

/// Sum of the running byte sums of `w`: the sum over every non-empty prefix
/// of `w` of its byte sum. Equivalently, for `n == w.len()`, the sum over
/// `i < n` of `(n - i) * w[i]`.
pub open spec fn prefix_sum_total(w: Seq<u8>) -> int
    decreases w.len(),
{
    if w.len() == 0 {
        0
    } else {
        prefix_sum_total(w.drop_last()) + byte_sum(w)
    }
}

/// The low half of the weak checksum of `w`.
pub open spec fn weak_a(w: Seq<u8>) -> int {
    byte_sum(w) % 65536
}

/// The high half of the weak checksum of `w`.
pub open spec fn weak_b(w: Seq<u8>) -> int {
    prefix_sum_total(w) % 65536
}

/// The 32-bit weak checksum of `w`: the high half shifted above the low half.
pub open spec fn weak_checksum(w: Seq<u8>) -> int {
    weak_b(w) * 65536 + weak_a(w)
}

/// The state of a rolling checksum over the window `w`: both halves and the
/// window length.
pub open spec fn window_state(w: Seq<u8>) -> (int, int, nat) {
    (weak_a(w), weak_b(w), w.len())
}

/// The state after sliding a window with state `s` by one byte: `out` leaves
/// at the front, `inn` enters at the back.
pub open spec fn rolled_state(s: (int, int, nat), out: u8, inn: u8) -> (int, int, nat) {
    let a = (s.0 + inn - out) % 65536;
    (a, (s.1 + a - s.2 * out) % 65536, s.2)
}

/// The checksum value of a state: `b * 2^16 + a`.
pub open spec fn state_sum(s: (int, int, nat)) -> int {
    s.1 * 65536 + s.0
}

/// The weak checksum of a window of bytes, kept so that the window can slide
/// by one byte in constant time.
#[derive(Debug)]
pub struct RollingChecksum {
    a: u32,
    b: u32,
    len: usize,
}

impl View for RollingChecksum {
    type V = (int, int, nat);

    closed spec fn view(&self) -> (int, int, nat) {
        (self.a as int, self.b as int, self.len as nat)
    }
}

proof fn lemma_byte_sum_push(w: Seq<u8>, x: u8)
    ensures
        byte_sum(w.push(x)) == byte_sum(w) + x,
        prefix_sum_total(w.push(x)) == prefix_sum_total(w) + byte_sum(w) + x,
{
    assert(w.push(x).drop_last() =~= w);
}

proof fn lemma_byte_sum_front(w: Seq<u8>)
    requires
        w.len() >= 1,
    ensures
        byte_sum(w) == w[0] + byte_sum(w.drop_first()),
        prefix_sum_total(w) == w.len() * w[0] + prefix_sum_total(w.drop_first()),
    decreases w.len(),
{
    if w.len() == 1 {
        assert(w.drop_last() =~= Seq::<u8>::empty());
        assert(w.drop_first() =~= Seq::<u8>::empty());
    } else {
        let d = w.drop_last();
        lemma_byte_sum_front(d);
        assert(d.drop_first() =~= w.drop_first().drop_last());
        assert(w.drop_first().last() == w.last());
        assert(prefix_sum_total(w) == prefix_sum_total(d) + byte_sum(w));
        assert(prefix_sum_total(w.drop_first()) == prefix_sum_total(d.drop_first())
            + byte_sum(w.drop_first()));
        assert(w.len() * w[0] == d.len() * w[0] + w[0]) by (nonlinear_arith)
            requires
                w.len() == d.len() + 1,
        ;
    }
}

/// Sliding a window by one byte through `rolled_state` gives the state that a
/// full recomputation over the new window gives: for a window `w` of at least
/// one byte, dropping `w[0]` and appending `x`.
pub proof fn lemma_roll_matches_recompute(w: Seq<u8>, x: u8)
    requires
        w.len() >= 1,
    ensures
        rolled_state(window_state(w), w[0], x) == window_state(w.drop_first().push(x)),
{
    let t = w.drop_first();
    lemma_byte_sum_front(w);
    lemma_byte_sum_push(t, x);
    let m: int = 65536;
    // low half
    let a_new = byte_sum(t) + x;
    assert(byte_sum(w) + x - w[0] == a_new);
    assert((byte_sum(w) % m + x - w[0]) % m == a_new % m) by {
        lemma_add_mod_noop(byte_sum(w), x - w[0], m);
        lemma_add_mod_noop(byte_sum(w) % m, x - w[0], m);
        vstd::arithmetic::div_mod::lemma_mod_twice(byte_sum(w), m);
    }
    // high half
    let b_new = prefix_sum_total(t) + a_new;
    assert(prefix_sum_total(w) + a_new - w.len() * w[0] == b_new);
    let s = window_state(w);
    let a2 = a_new % m;
    assert((s.1 + a2 - s.2 * w[0]) % m == b_new % m) by {
        let p = prefix_sum_total(w);
        let k = w.len() * w[0];
        let q = a_new - k;
        lemma_add_mod_noop(a_new, -k, m);
        lemma_add_mod_noop(a2, -k, m);
        vstd::arithmetic::div_mod::lemma_mod_twice(a_new, m);
        assert((a2 - k) % m == q % m);
        assert((s.1 + a2 - s.2 * w[0]) == p % m + (a2 - k));
        lemma_add_mod_noop(p % m, a2 - k, m);
        lemma_add_mod_noop(p % m, q, m);
        lemma_add_mod_noop(p, a2 - k, m);
        lemma_add_mod_noop(p, q, m);
        vstd::arithmetic::div_mod::lemma_mod_twice(p, m);
    }
}

impl Clone for RollingChecksum {
    fn clone(&self) -> (r: Self)
        ensures
            r@ == self@,
    {
        proof {
            use_type_invariant(self);
        }
        RollingChecksum { a: self.a, b: self.b, len: self.len }
    }
}

impl RollingChecksum {
    #[verifier::type_invariant]
    spec fn halves_reduced(self) -> bool {
        self.a < 65536 && self.b < 65536
    }

    /// The checksum of the whole of `buf`, ready to slide over the bytes that
    /// follow it.
    pub fn new(buf: &[u8]) -> (r: Self)
        ensures
            r@ == window_state(buf@),
    {
        let mut a: u32 = 0;
        let mut b: u32 = 0;
        let mut i: usize = 0;
        assert(buf@.take(0) =~= Seq::<u8>::empty());
        while i < buf.len()
            invariant
                i <= buf.len(),
                a as int == weak_a(buf@.take(i as int)),
                b as int == weak_b(buf@.take(i as int)),
            decreases buf.len() - i,
        {
            let byte = buf[i];
            let ghost prev = buf@.take(i as int);
            let ghost next = buf@.take(i as int + 1);
            assert(next =~= prev.push(byte));
            proof {
                lemma_byte_sum_push(prev, byte);
                lemma_add_mod_noop(byte_sum(prev), byte as int, 65536);
                lemma_add_mod_noop(prefix_sum_total(prev), byte_sum(next), 65536);
                vstd::arithmetic::div_mod::lemma_small_mod(byte as nat, 65536);
            }
            a = (a + byte as u32) % MOD;
            b = (b + a) % MOD;
            i = i + 1;
        }
        assert(buf@.take(buf.len() as int) =~= buf@);
        RollingChecksum { a, b, len: buf.len() }
    }

    /// Slides the window by one byte: `out` is the byte that leaves at the
    /// front, `inn` the byte that enters at the back.
    pub fn roll(&mut self, out: u8, inn: u8)
        ensures
            final(self)@ == rolled_state(old(self)@, out, inn),
    {
        proof {
            use_type_invariant(&*self);
        }
        let out_u = out as u32;
        let in_u = inn as u32;
        let ghost m: int = 65536;
        let ghost a0 = self.a as int;
        let ghost b0 = self.b as int;
        let ghost len0 = self.len as int;
        let new_a = (MOD + self.a + in_u - out_u) % MOD;
        proof {
            lemma_mod_add_multiples_vanish(a0 + in_u - out_u, m);
        }
        let len_low: u32 = (self.len % 65536) as u32;
        assert(len_low as int == len0 % m);
        assert(len_low * out_u <= 65535 * 255) by (nonlinear_arith)
            requires
                len_low < 65536,
                out_u < 256,
        ;
        let len_term = (len_low * out_u) % MOD;
        let new_b = (MOD + self.b + new_a - len_term) % MOD;
        proof {
            let x = b0 + new_a;
            let l = len0 * out_u;
            lemma_mul_mod_noop_left(len0, out_u as int, m);
            assert(len_low * out_u == (len0 % m) * out_u);
            assert(len_term == l % m);
            lemma_mod_add_multiples_vanish(x - len_term, m);
            lemma_sub_mod_noop(x, l, m);
            lemma_sub_mod_noop(x, len_term as int, m);
            vstd::arithmetic::div_mod::lemma_mod_twice(l, m);
        }
        self.a = new_a;
        self.b = new_b;
    }

    /// The 32-bit checksum: the high half shifted above the low half.
    pub fn sum(&self) -> (s: u32)
        ensures
            s == state_sum(self@),
    {
        proof {
            use_type_invariant(self);
        }
        let a = self.a;
        let b = self.b;
        assert((b << 16u32) | a == b * 65536 + a) by (bit_vector)
            requires
                a < 65536,
                b < 65536,
        ;
        (b << 16) | a
    }
}

/// The state of a rolling checksum started on the first `n` bytes of `d`
/// and slid `i` times, each time dropping `d[j]` and taking in `d[j + n]`.
pub open spec fn rolled_steps(d: Seq<u8>, n: int, i: nat) -> (int, int, nat)
    decreases i,
{
    if i == 0 {
        window_state(d.subrange(0, n))
    } else {
        let j = i - 1;
        rolled_state(rolled_steps(d, n, (i - 1) as nat), d[j], d[j + n])
    }
}

/// Sliding a window of `n >= 1` bytes over `d` any number of times gives
/// what recomputing the window gives: after `i` slides from the first `n`
/// bytes, the state is that of `d[i .. i + n]`, and its checksum value is
/// that window's weak checksum.
pub proof fn lemma_rolls_match_recompute(d: Seq<u8>, n: int, i: nat)
    requires
        1 <= n,
        i + n <= d.len(),
    ensures
        rolled_steps(d, n, i) == window_state(d.subrange(i as int, i + n)),
        state_sum(rolled_steps(d, n, i)) == weak_checksum(d.subrange(i as int, i + n)),
    decreases i,
{
    if i > 0 {
        let j = i - 1;
        lemma_rolls_match_recompute(d, n, (i - 1) as nat);
        let w = d.subrange(j, j + n);
        lemma_roll_matches_recompute(w, d[j + n]);
        assert(w[0] == d[j]);
        assert(w.drop_first().push(d[j + n]) =~= d.subrange(i as int, i + n));
    }
}

/// The checksum value of a window's rolling state is the window's weak
/// checksum: a rolling checksum started on, or slid onto, a window reports
/// what `weak_hash` computes for that window.
pub proof fn lemma_state_sum_is_weak_checksum(w: Seq<u8>)
    ensures
        state_sum(window_state(w)) == weak_checksum(w),
{
}

/// The weak checksum of `buf`.
pub fn weak_hash(buf: &[u8]) -> (h: u32)
    ensures
        h == weak_checksum(buf@),
{
    RollingChecksum::new(buf).sum()
}

/// What `md5::compute` returns for `data`: its 16 digest bytes.
pub uninterp spec fn md5_digest(data: Seq<u8>) -> Seq<u8>;

/// Calls `md5::compute` and hands back the digest's 16 bytes. Claimed: they
/// are `md5_digest` of the input; nothing more is said of their value.
#[verifier::external_body]
fn md5_compute(buf: &[u8]) -> (d: [u8; 16])
    ensures
        d@ == md5_digest(buf@),
{
    md5::compute(buf).0
}

/// The unsigned integer whose big-endian bytes are `bytes`.
pub open spec fn be_value(bytes: Seq<u8>) -> int
    decreases bytes.len(),
{
    if bytes.len() == 0 {
        0
    } else {
        be_value(bytes.drop_last()) * 256 + bytes.last() as int
    }
}

/// `256^n`.
pub open spec fn pow256(n: nat) -> int
    decreases n,
{
    if n == 0 {
        1
    } else {
        256 * pow256((n - 1) as nat)
    }
}

pub(crate) proof fn lemma_be_value_bound(bytes: Seq<u8>)
    ensures
        0 <= be_value(bytes) < pow256(bytes.len()),
    decreases bytes.len(),
{
    if bytes.len() > 0 {
        let d = bytes.drop_last();
        lemma_be_value_bound(d);
        let v = be_value(d);
        let p = pow256(d.len());
        let x = bytes.last() as int;
        assert(v * 256 + x < 256 * p) by (nonlinear_arith)
            requires
                0 <= v < p,
                0 <= x < 256,
        ;
        assert(0 <= v * 256 + x) by (nonlinear_arith)
            requires
                0 <= v,
                0 <= x,
        ;
    }
}

/// The strong hash of a block: its MD5 digest read as a big-endian integer.
pub open spec fn strong_digest(w: Seq<u8>) -> int {
    be_value(md5_digest(w))
}

/// The strong (128-bit) hash of `buf`: its MD5 digest as a big-endian integer.
pub fn strong_hash128(buf: &[u8]) -> (h: u128)
    ensures
        h == strong_digest(buf@),
{
    let digest = md5_compute(buf);
    let mut acc: u128 = 0;
    let mut i: usize = 0;
    assert(digest@.take(0) =~= Seq::<u8>::empty());
    proof {
        reveal_with_fuel(pow256, 17);
    }
    assert(pow256(16) == 0x1_0000_0000_0000_0000_0000_0000_0000_0000);
    while i < 16
        invariant
            i <= 16,
            acc as int == be_value(digest@.take(i as int)),
            pow256(16) == 0x1_0000_0000_0000_0000_0000_0000_0000_0000,
        decreases 16 - i,
    {
        let ghost prev = digest@.take(i as int);
        let ghost next = digest@.take(i as int + 1);
        assert(next.drop_last() =~= prev);
        proof {
            lemma_be_value_bound(next);
            lemma_pow256_mono(next.len(), 16);
        }
        acc = acc * 256 + digest[i] as u128;
        i = i + 1;
    }
    assert(digest@.take(16) =~= digest@);
    acc
}

pub(crate) proof fn lemma_pow256_mono(a: nat, b: nat)
    requires
        a <= b,
    ensures
        pow256(a) <= pow256(b),
    decreases b,
{
    if a < b {
        lemma_pow256_mono(a, (b - 1) as nat);
        lemma_pow256_pos((b - 1) as nat);
    }
}

pub(crate) proof fn lemma_pow256_pos(n: nat)
    ensures
        pow256(n) > 0,
    decreases n,
{
    if n > 0 {
        lemma_pow256_pos((n - 1) as nat);
    }
}

} // verus!
