//! Building text a character at a time, and the lower-case hexadecimal and
//! decimal digits that the wire formats use.
use vstd::prelude::*;

verus! {

use vstd::string::StringSliceAdditionalSpecFns;

/// Calls `String::push`, which appends one character to the end of the
/// string. Claimed: the new contents are the old contents followed by `c`.
#[verifier::external_body]
pub(crate) fn push_char(s: &mut String, c: char)
    ensures
        final(s)@ == old(s)@.push(c),
{
    s.push(c)
}

/// The lower-case hexadecimal digit for `n`, for `0 <= n < 16`.
pub open spec fn hex_digit_char(n: int) -> char {
    if n < 10 {
        (48 + n) as char
    } else {
        (87 + n) as char
    }
}

/// The lower-case hexadecimal digit for a nibble.
pub fn hex_digit(n: u8) -> (c: char)
    requires
        n < 16,
    ensures
        c == hex_digit_char(n as int),
{
    if n < 10 {
        (48u8 + n) as char
    } else {
        (87u8 + n) as char
    }
}

/// The decimal digit for `n`, for `0 <= n < 10`.
pub open spec fn decimal_digit_char(n: int) -> char {
    (48 + n) as char
}

/// The `n` lowest hexadecimal digits of `v`, most significant first, padded
/// with zeros.
pub open spec fn hex_fixed(v: int, n: nat) -> Seq<char>
    decreases n,
{
    if n == 0 {
        Seq::empty()
    } else {
        hex_fixed(v / 16, (n - 1) as nat).push(hex_digit_char(v % 16))
    }
}

/// `16^n`.
pub open spec fn pow16(n: nat) -> int
    decreases n,
{
    if n == 0 {
        1
    } else {
        16 * pow16((n - 1) as nat)
    }
}

pub(crate) proof fn lemma_pow16_pos(n: nat)
    ensures
        pow16(n) > 0,
    decreases n,
{
    if n > 0 {
        lemma_pow16_pos((n - 1) as nat);
    }
}

/// `v` as 32 lower-case hexadecimal digits, zero-padded.
pub fn hex_u128(v: u128) -> (s: String)
    ensures
        s@ == hex_fixed(v as int, 32),
{
    let mut s = String::new();
    let mut p: u128 = 0x1000_0000_0000_0000_0000_0000_0000_0000;
    assert(p == pow16(31)) by {
        reveal_with_fuel(pow16, 32);
    }
    let mut i: usize = 0;
    while i < 32
        invariant
            i <= 32,
            i < 32 ==> p as int == pow16((31 - i) as nat),
            s@ == hex_fixed(v as int / pow16((32 - i) as nat), i as nat),
        decreases 32 - i,
    {
        let ghost q = (31 - i) as nat;
        proof {
            lemma_pow16_pos(q);
            assert(pow16(q + 1) == 16 * pow16(q));
            vstd::arithmetic::div_mod::lemma_div_denominator(v as int, pow16(q), 16);
            vstd::arithmetic::mul::lemma_mul_is_commutative(pow16(q), 16);
            assert((32 - i) as nat == q + 1);
        }
        let d = ((v / p) % 16) as u8;
        let c = hex_digit(d);
        push_char(&mut s, c);
        p = p / 16;
        proof {
            if i + 1 < 32 {
                assert(pow16(q) == 16 * pow16((q - 1) as nat));
            }
        }
        i = i + 1;
    }
    assert(v as int / pow16(0) == v as int);
    s
}

/// The value of an ASCII hexadecimal digit byte, either case.
pub open spec fn hex_byte_value(b: u8) -> Option<int> {
    if 48 <= b <= 57 {
        Some(b - 48)
    } else if 97 <= b <= 102 {
        Some(b - 87)
    } else if 65 <= b <= 70 {
        Some(b - 55)
    } else {
        None
    }
}

/// Every byte of `d` is a hexadecimal digit.
pub open spec fn all_hex_bytes(d: Seq<u8>) -> bool {
    forall|i: int| 0 <= i < d.len() ==> #[trigger] hex_byte_value(d[i]) is Some
}

/// The value of a string of hexadecimal digit bytes, most significant first.
pub open spec fn hex_bytes_value(d: Seq<u8>) -> int
    decreases d.len(),
{
    if d.len() == 0 {
        0
    } else {
        hex_bytes_value(d.drop_last()) * 16 + match hex_byte_value(d.last()) {
            Some(v) => v,
            None => 0,
        }
    }
}

/// What `u128::from_str_radix(text, 16).ok()` gives for text with bytes `b`:
/// an optional `+`, then one or more hexadecimal digits of either case whose
/// value is below 2^128; anything else gives nothing.
pub open spec fn hex_u128_text_value(b: Seq<u8>) -> Option<int> {
    let digits = if b.len() > 0 && b[0] == 43 {
        b.drop_first()
    } else {
        b
    };
    if digits.len() > 0 && all_hex_bytes(digits) && hex_bytes_value(digits)
        < 0x1_0000_0000_0000_0000_0000_0000_0000_0000 {
        Some(hex_bytes_value(digits))
    } else {
        None
    }
}

/// The value of one hexadecimal digit byte.
pub fn hex_byte(b: u8) -> (r: Option<u8>)
    ensures
        match r {
            Some(v) => hex_byte_value(b) == Some(v as int) && v < 16,
            None => hex_byte_value(b) is None,
        },
{
    if 48 <= b && b <= 57 {
        Some(b - 48)
    } else if 97 <= b && b <= 102 {
        Some(b - 87)
    } else if 65 <= b && b <= 70 {
        Some(b - 55)
    } else {
        None
    }
}

proof fn lemma_hex_prefix_le(d: Seq<u8>, k: int)
    requires
        all_hex_bytes(d),
        0 <= k <= d.len(),
    ensures
        0 <= hex_bytes_value(d.take(k)) <= hex_bytes_value(d),
    decreases d.len(),
{
    if k == d.len() {
        assert(d.take(k) =~= d);
        lemma_hex_value_nonneg(d);
    } else {
        let p = d.drop_last();
        assert(p.take(k) =~= d.take(k));
        assert(hex_byte_value(d[d.len() - 1]) is Some);
        lemma_hex_prefix_le(p, k);
    }
}

proof fn lemma_hex_value_nonneg(d: Seq<u8>)
    ensures
        0 <= hex_bytes_value(d),
    decreases d.len(),
{
    if d.len() > 0 {
        lemma_hex_value_nonneg(d.drop_last());
    }
}

/// Parses hexadecimal text as a `u128` the way `u128::from_str_radix(s, 16)`
/// does, with every error folded into `None`.
pub fn parse_hex_u128(s: &str) -> (r: Option<u128>)
    ensures
        match r {
            Some(v) => hex_u128_text_value(s.spec_bytes()) == Some(v as int),
            None => hex_u128_text_value(s.spec_bytes()) is None,
        },
{
    let b = s.as_bytes();
    let n = b.len();
    if n == 0 {
        return None;
    }
    let start: usize = if b[0] == 43 {
        1
    } else {
        0
    };
    if start == n {
        assert(b@.drop_first().len() == 0);
        return None;
    }
    let ghost digits = b@.subrange(start as int, n as int);
    assert(digits =~= if b@.len() > 0 && b@[0] == 43 {
        b@.drop_first()
    } else {
        b@
    });
    let mut acc: u128 = 0;
    let mut i: usize = start;
    assert(digits.take(0) =~= Seq::<u8>::empty());
    while i < n
        invariant
            start <= i <= n,
            n == b@.len(),
            digits == b@.subrange(start as int, n as int),
            b@ == s.spec_bytes(),
            digits == (if b@.len() > 0 && b@[0] == 43 {
                b@.drop_first()
            } else {
                b@
            }),
            all_hex_bytes(digits.take(i - start)),
            acc as int == hex_bytes_value(digits.take(i - start)),
        decreases n - i,
    {
        let ghost k = i - start;
        let ghost prev = digits.take(k);
        let ghost next = digits.take(k + 1);
        assert(next.drop_last() =~= prev);
        assert(digits[k] == b@[i as int]);
        let d = match hex_byte(b[i]) {
            Some(d) => d,
            None => {
                assert(!all_hex_bytes(digits)) by {
                    assert(hex_byte_value(digits[k]) is None);
                }
                return None;
            },
        };
        assert(all_hex_bytes(next)) by {
            assert forall|j: int| 0 <= j < next.len() implies #[trigger] hex_byte_value(next[j]) is Some by {
                if j < k {
                    assert(next[j] == prev[j]);
                }
            }
        }
        if acc >= 0x1000_0000_0000_0000_0000_0000_0000_0000 {
            proof {
                if all_hex_bytes(digits) {
                    lemma_hex_prefix_le(digits, k + 1);
                    assert(hex_bytes_value(next) == acc * 16 + d);
                }
            }
            return None;
        }
        acc = acc * 16 + d as u128;
        i = i + 1;
    }
    assert(digits.take(n - start) =~= digits);
    Some(acc)
}

spec fn hex_fixed_bytes(v: int, n: nat) -> Seq<u8> {
    hex_fixed(v, n).map_values(|c: char| c as u8)
}

proof fn lemma_hex_fixed_bytes(v: int, n: nat)
    requires
        v >= 0,
    ensures
        hex_fixed(v, n).len() == n,
        vstd::utf8::is_ascii_chars(hex_fixed(v, n)),
        all_hex_bytes(hex_fixed_bytes(v, n)),
        hex_bytes_value(hex_fixed_bytes(v, n)) == v % pow16(n),
        forall|i: int| 0 <= i < n ==> #[trigger] hex_fixed_bytes(v, n)[i] != 43,
    decreases n,
{
    let m = hex_fixed_bytes(v, n);
    if n == 0 {
        assert(m =~= Seq::<u8>::empty());
        assert(v % 1 == 0);
    } else {
        let p = hex_fixed(v / 16, (n - 1) as nat);
        let pm = hex_fixed_bytes(v / 16, (n - 1) as nat);
        lemma_hex_fixed_bytes(v / 16, (n - 1) as nat);
        let d = v % 16;
        let c = hex_digit_char(d);
        assert(hex_fixed(v, n) == p.push(c));
        assert(m =~= pm.push(c as u8));
        assert(m.drop_last() =~= pm);
        assert(hex_byte_value(c as u8) == Some(d));
        assert(c as u8 != 43);
        assert forall|i: int| 0 <= i < m.len() implies #[trigger] hex_byte_value(m[i]) is Some by {
            if i < pm.len() {
                assert(m[i] == pm[i]);
            }
        }
        assert forall|i: int| 0 <= i < n implies #[trigger] m[i] != 43 by {
            if i < pm.len() {
                assert(m[i] == pm[i]);
            }
        }
        assert forall|i: int| 0 <= i < hex_fixed(v, n).len() implies '\0' <= #[trigger] hex_fixed(
            v,
            n,
        )[i] <= '\u{7f}' by {
            if i < p.len() {
                assert(hex_fixed(v, n)[i] == p[i]);
            }
        }
        lemma_pow16_pos((n - 1) as nat);
        vstd::arithmetic::div_mod::lemma_mod_breakdown(v, 16, pow16((n - 1) as nat));
        assert(pow16(n) == 16 * pow16((n - 1) as nat));
    }
}

/// Text written by `hex_u128` reads back, through `parse_hex_u128`'s rule,
/// as the same value.
pub proof fn lemma_hex_fixed_parses(v: int)
    requires
        0 <= v < 0x1_0000_0000_0000_0000_0000_0000_0000_0000,
    ensures
        hex_u128_text_value(vstd::utf8::encode_utf8(hex_fixed(v, 32))) == Some(v),
{
    lemma_hex_fixed_bytes(v, 32);
    let t = hex_fixed(v, 32);
    vstd::utf8::is_ascii_chars_encode_utf8(t);
    let b = vstd::utf8::encode_utf8(t);
    assert(b =~= hex_fixed_bytes(v, 32));
    assert(pow16(32) == 0x1_0000_0000_0000_0000_0000_0000_0000_0000) by {
        reveal_with_fuel(pow16, 33);
    }
    assert(b[0] != 43);
}

} // verus!
