//! IPv4 addresses as dotted-quad text, written and read the way the
//! standard library's `Ipv4Addr` writes and parses them.
use vstd::prelude::*;

verus! {

use vstd::string::StringSliceAdditionalSpecFns;
use vstd::utf8::encode_utf8;
use crate::text::{decimal_digit_char, push_char};

/// Whether a byte is an ASCII decimal digit.
pub open spec fn is_digit_byte(b: u8) -> bool {
    48 <= b <= 57
}

/// The value of a string of decimal digit bytes, most significant first.
pub open spec fn decimal_bytes_value(d: Seq<u8>) -> int
    decreases d.len(),
{
    if d.len() == 0 {
        0
    } else {
        decimal_bytes_value(d.drop_last()) * 10 + (d.last() - 48)
    }
}

/// One part of an IPv4 address: one to three decimal digits, no leading zero
/// unless the part is `0` itself, value at most 255.
pub open spec fn octet_text_ok(d: Seq<u8>) -> bool {
    &&& 1 <= d.len() <= 3
    &&& forall|i: int| 0 <= i < d.len() ==> #[trigger] is_digit_byte(d[i])
    &&& (d.len() == 1 || d[0] != 48)
    &&& decimal_bytes_value(d) <= 255
}

/// `b` cut at every `.`: the pieces before, between and after the dots.
pub open spec fn split_on_dot(b: Seq<u8>) -> Seq<Seq<u8>>
    decreases b.len(),
{
    if b.len() == 0 {
        seq![Seq::empty()]
    } else {
        let rest = split_on_dot(b.drop_last());
        if b.last() == 46 {
            rest.push(Seq::empty())
        } else {
            rest.update(rest.len() - 1, rest.last().push(b.last()))
        }
    }
}

/// The four octets that text with bytes `b` names, when it is exactly four
/// well-formed parts separated by dots.
pub open spec fn ipv4_text_value(b: Seq<u8>) -> Option<Seq<u8>> {
    let parts = split_on_dot(b);
    if parts.len() == 4 && forall|k: int| 0 <= k < 4 ==> #[trigger] octet_text_ok(parts[k]) {
        Some(Seq::new(4, |k: int| decimal_bytes_value(parts[k]) as u8))
    } else {
        None
    }
}

/// `v` in decimal, without leading zeros, for `0 <= v < 1000`.
pub open spec fn decimal_text(v: int) -> Seq<char> {
    if v < 10 {
        seq![decimal_digit_char(v)]
    } else if v < 100 {
        seq![decimal_digit_char(v / 10), decimal_digit_char(v % 10)]
    } else {
        seq![decimal_digit_char(v / 100), decimal_digit_char((v / 10) % 10), decimal_digit_char(v % 10)]
    }
}

/// An IPv4 address in dotted-quad text.
pub open spec fn ipv4_text(o: Seq<u8>) -> Seq<char> {
    decimal_text(o[0] as int) + seq!['.'] + decimal_text(o[1] as int) + seq!['.'] + decimal_text(
        o[2] as int,
    ) + seq!['.'] + decimal_text(o[3] as int)
}

fn decimal_digit(d: u8) -> (c: char)
    requires
        d < 10,
    ensures
        c == decimal_digit_char(d as int),
{
    (48u8 + d) as char
}

fn push_decimal(s: &mut String, v: u8)
    ensures
        final(s)@ == old(s)@ + decimal_text(v as int),
{
    if v < 10 {
        push_char(s, decimal_digit(v));
    } else if v < 100 {
        push_char(s, decimal_digit(v / 10));
        push_char(s, decimal_digit(v % 10));
    } else {
        push_char(s, decimal_digit(v / 100));
        push_char(s, decimal_digit((v / 10) % 10));
        push_char(s, decimal_digit(v % 10));
    }
    assert(final(s)@ =~= old(s)@ + decimal_text(v as int));
}

/// The address in dotted-quad text, as `Ipv4Addr`'s `Display` writes it.
pub fn format_ipv4(octets: &[u8; 4]) -> (s: String)
    ensures
        s@ == ipv4_text(octets@),
{
    let mut s = String::new();
    push_decimal(&mut s, octets[0]);
    push_char(&mut s, '.');
    push_decimal(&mut s, octets[1]);
    push_char(&mut s, '.');
    push_decimal(&mut s, octets[2]);
    push_char(&mut s, '.');
    push_decimal(&mut s, octets[3]);
    assert(s@ =~= ipv4_text(octets@));
    s
}

fn octet_value(b: &[u8], start: usize, end: usize) -> (r: Option<u8>)
    requires
        start <= end <= b@.len(),
    ensures
        match r {
            Some(v) => octet_text_ok(b@.subrange(start as int, end as int)) && v as int
                == decimal_bytes_value(b@.subrange(start as int, end as int)),
            None => !octet_text_ok(b@.subrange(start as int, end as int)),
        },
{
    let ghost d = b@.subrange(start as int, end as int);
    let len = end - start;
    if len == 0 || len > 3 {
        return None;
    }
    if len > 1 && b[start] == 48 {
        assert(d[0] == b@[start as int]);
        assert(d.len() == len);
        assert(!octet_text_ok(d));
        return None;
    }
    let mut acc: u32 = 0;
    let mut k: usize = 0;
    assert(d.take(0) =~= Seq::<u8>::empty());
    while k < len
        invariant
            len == end - start,
            1 <= len <= 3,
            start <= end <= b@.len(),
            d == b@.subrange(start as int, end as int),
            k <= len,
            forall|i: int| 0 <= i < k ==> #[trigger] is_digit_byte(d[i]),
            acc as int == decimal_bytes_value(d.take(k as int)),
            acc < 1000,
            k == 0 ==> acc == 0,
            k == 1 ==> acc < 10,
            k == 2 ==> acc < 100,
        decreases len - k,
    {
        let c = b[start + k];
        assert(c == d[k as int]);
        if c < 48 || c > 57 {
            assert(!is_digit_byte(d[k as int]));
            return None;
        }
        let ghost next = d.take(k as int + 1);
        assert(next.drop_last() =~= d.take(k as int));
        acc = acc * 10 + (c - 48) as u32;
        k = k + 1;
    }
    assert(d.take(len as int) =~= d);
    if acc > 255 {
        return None;
    }
    Some(acc as u8)
}

proof fn lemma_split_step(b: Seq<u8>, i: int)
    requires
        0 <= i < b.len(),
    ensures
        split_on_dot(b.take(i + 1)) == if b[i] == 46 {
            split_on_dot(b.take(i)).push(Seq::empty())
        } else {
            let rest = split_on_dot(b.take(i));
            rest.update(rest.len() - 1, rest.last().push(b[i]))
        },
{
    assert(b.take(i + 1).drop_last() =~= b.take(i));
}

proof fn lemma_split_nonempty(b: Seq<u8>)
    ensures
        split_on_dot(b).len() >= 1,
    decreases b.len(),
{
    if b.len() > 0 {
        lemma_split_nonempty(b.drop_last());
    }
}

/// The pieces before the last piece of a prefix stay as they are in every
/// longer prefix, and the number of pieces never shrinks.
proof fn lemma_split_prefix_stable(b: Seq<u8>, j: int, k: int)
    requires
        0 <= j <= k <= b.len(),
    ensures
        split_on_dot(b.take(k)).len() >= split_on_dot(b.take(j)).len(),
        forall|m: int|
            0 <= m < split_on_dot(b.take(j)).len() - 1 ==> #[trigger] split_on_dot(b.take(k))[m]
                == split_on_dot(b.take(j))[m],
    decreases k - j,
{
    if k > j {
        lemma_split_prefix_stable(b, j, k - 1);
        lemma_split_step(b, k - 1);
        lemma_split_nonempty(b.take(k - 1));
    }
}

/// Parses dotted-quad IPv4 text the way `Ipv4Addr`'s `FromStr` does.
pub fn parse_ipv4(s: &str) -> (r: Option<[u8; 4]>)
    ensures
        match r {
            Some(o) => ipv4_text_value(s.spec_bytes()) == Some(o@),
            None => ipv4_text_value(s.spec_bytes()) is None,
        },
{
    let b = s.as_bytes();
    let n = b.len();
    let mut vals = [0u8; 4];
    let mut dots: usize = 0;
    let mut cur: usize = 0;
    let mut i: usize = 0;
    assert(b@.take(0) =~= Seq::<u8>::empty());
    assert(split_on_dot(Seq::<u8>::empty()) == seq![Seq::<u8>::empty()]);
    while i < n
        invariant
            n == b@.len(),
            b@ == s.spec_bytes(),
            cur <= i <= n,
            dots <= 3,
            split_on_dot(b@.take(i as int)).len() == dots + 1,
            split_on_dot(b@.take(i as int)).last() == b@.subrange(cur as int, i as int),
            forall|k: int|
                0 <= k < dots ==> octet_text_ok(#[trigger] split_on_dot(b@.take(i as int))[k])
                    && vals@[k] as int == decimal_bytes_value(split_on_dot(b@.take(i as int))[k]),
        decreases n - i,
    {
        let ghost before = split_on_dot(b@.take(i as int));
        proof {
            lemma_split_step(b@, i as int);
        }
        let ghost after = split_on_dot(b@.take(i as int + 1));
        if b[i] == 46 {
            if dots == 3 {
                proof {
                    lemma_split_prefix_stable(b@, i + 1, n as int);
                    assert(b@.take(n as int) =~= b@);
                }
                return None;
            }
            match octet_value(b, cur, i) {
                None => {
                    proof {
                        lemma_split_prefix_stable(b@, i + 1, n as int);
                        assert(b@.take(n as int) =~= b@);
                        assert(after[dots as int] == before.last());
                        let parts = split_on_dot(b@);
                        assert(parts[dots as int] == after[dots as int]);
                        assert(!octet_text_ok(parts[dots as int]));
                    }
                    return None;
                },
                Some(v) => {
                    let ghost old_vals = vals@;
                    vals[dots] = v;
                    assert forall|k: int| 0 <= k < dots + 1 implies octet_text_ok(
                        #[trigger] after[k],
                    ) && vals@[k] as int == decimal_bytes_value(after[k]) by {
                        assert(after[k] == before[k]);
                        if k < dots {
                            assert(vals@[k] == old_vals[k]);
                        }
                    }
                    dots = dots + 1;
                    cur = i + 1;
                    assert(after.last() =~= b@.subrange(cur as int, i as int + 1));
                },
            }
        } else {
            assert(after.last() =~= b@.subrange(cur as int, i as int + 1));
            assert forall|k: int| 0 <= k < dots implies octet_text_ok(#[trigger] after[k])
                && vals@[k] as int == decimal_bytes_value(after[k]) by {
                assert(after[k] == before[k]);
            }
        }
        i = i + 1;
    }
    assert(b@.take(n as int) =~= b@);
    if dots != 3 {
        return None;
    }
    match octet_value(b, cur, n) {
        None => None,
        Some(v) => {
            let ghost old_vals = vals@;
            vals[3] = v;
            let ghost parts = split_on_dot(b@);
            assert forall|k: int| 0 <= k < 4 implies #[trigger] octet_text_ok(parts[k]) by {
                if k < 3 {
                    assert(octet_text_ok(parts[k]));
                }
            }
            assert(vals@ =~= Seq::new(4, |k: int| decimal_bytes_value(parts[k]) as u8)) by {
                assert forall|k: int| 0 <= k < 4 implies vals@[k] == decimal_bytes_value(
                    parts[k],
                ) as u8 by {
                    if k < 3 {
                        assert(vals@[k] == old_vals[k]);
                        assert(octet_text_ok(parts[k]));
                    }
                }
            }
            Some(vals)
        },
    }
}

spec fn ascii_bytes(c: Seq<char>) -> Seq<u8> {
    c.map_values(|ch: char| ch as u8)
}

spec fn dot_free(c: Seq<u8>) -> bool {
    forall|i: int| 0 <= i < c.len() ==> #[trigger] c[i] != 46
}

proof fn lemma_split_dot_free(a: Seq<u8>, c: Seq<u8>)
    requires
        dot_free(c),
    ensures
        split_on_dot(c) == seq![c],
        split_on_dot(a + seq![46u8] + c) == split_on_dot(a).push(c),
    decreases c.len(),
{
    if c.len() == 0 {
        assert(c =~= Seq::<u8>::empty());
        assert((a + seq![46u8] + c).drop_last() =~= a);
        assert(a + seq![46u8] + c =~= a.push(46u8));
    } else {
        let p = c.drop_last();
        assert(dot_free(p)) by {
            assert forall|i: int| 0 <= i < p.len() implies #[trigger] p[i] != 46 by {
                assert(p[i] == c[i]);
            }
        }
        lemma_split_dot_free(a, p);
        assert(c.last() != 46);
        assert((a + seq![46u8] + c).drop_last() =~= a + seq![46u8] + p);
        assert(split_on_dot(c) =~= seq![c]) by {
            assert(p.push(c.last()) =~= c);
            assert(seq![p].update(0, p.push(c.last())) =~= seq![c]);
        }
        let r = split_on_dot(a + seq![46u8] + p);
        assert(r.update(r.len() - 1, r.last().push(c.last())) =~= split_on_dot(a).push(c)) by {
            assert(p.push(c.last()) =~= c);
        }
    }
}

proof fn lemma_decimal_octet(v: int)
    requires
        0 <= v < 256,
    ensures
        vstd::utf8::is_ascii_chars(decimal_text(v)),
        octet_text_ok(ascii_bytes(decimal_text(v))),
        decimal_bytes_value(ascii_bytes(decimal_text(v))) == v,
        dot_free(ascii_bytes(decimal_text(v))),
{
    let t = decimal_text(v);
    let d = ascii_bytes(t);
    if v < 10 {
        assert(d =~= seq![(48 + v) as u8]);
        let e = d.drop_last();
        assert(e =~= Seq::<u8>::empty());
        assert(decimal_bytes_value(e) == 0);
        assert(decimal_bytes_value(d) == decimal_bytes_value(e) * 10 + (d.last() - 48));
    } else if v < 100 {
        assert(d =~= seq![(48 + v / 10) as u8, (48 + v % 10) as u8]);
        let e1 = d.drop_last();
        let e0 = e1.drop_last();
        assert(e1 =~= seq![(48 + v / 10) as u8]);
        assert(e0 =~= Seq::<u8>::empty());
        assert(decimal_bytes_value(e0) == 0);
        assert(decimal_bytes_value(e1) == decimal_bytes_value(e0) * 10 + (e1.last() - 48));
        assert(decimal_bytes_value(d) == decimal_bytes_value(e1) * 10 + (d.last() - 48));
    } else {
        assert(d =~= seq![(48 + v / 100) as u8, (48 + (v / 10) % 10) as u8, (48 + v % 10) as u8]);
        let e2 = d.drop_last();
        let e1 = e2.drop_last();
        let e0 = e1.drop_last();
        assert(e2 =~= seq![(48 + v / 100) as u8, (48 + (v / 10) % 10) as u8]);
        assert(e1 =~= seq![(48 + v / 100) as u8]);
        assert(e0 =~= Seq::<u8>::empty());
        assert(decimal_bytes_value(e0) == 0);
        assert(decimal_bytes_value(e1) == decimal_bytes_value(e0) * 10 + (e1.last() - 48));
        assert(decimal_bytes_value(e2) == decimal_bytes_value(e1) * 10 + (e2.last() - 48));
        assert(decimal_bytes_value(d) == decimal_bytes_value(e2) * 10 + (d.last() - 48));
    }
    assert forall|i: int| 0 <= i < d.len() implies #[trigger] is_digit_byte(d[i]) by {
    }
}

/// Dotted-quad text that `format_ipv4` writes reads back, through
/// `parse_ipv4`'s rule, as the same four octets.
pub proof fn lemma_ipv4_text_round_trip(o: Seq<u8>)
    requires
        o.len() == 4,
    ensures
        ipv4_text_value(encode_utf8(ipv4_text(o))) == Some(o),
{
    let t0 = decimal_text(o[0] as int);
    let t1 = decimal_text(o[1] as int);
    let t2 = decimal_text(o[2] as int);
    let t3 = decimal_text(o[3] as int);
    lemma_decimal_octet(o[0] as int);
    lemma_decimal_octet(o[1] as int);
    lemma_decimal_octet(o[2] as int);
    lemma_decimal_octet(o[3] as int);
    let text = ipv4_text(o);
    assert(vstd::utf8::is_ascii_chars(text)) by {
        assert forall|i: int| 0 <= i < text.len() implies '\0' <= #[trigger] text[i] <= '\u{7f}' by {
            let l0 = t0.len() as int;
            let l1 = t1.len() as int;
            let l2 = t2.len() as int;
            if i < l0 {
                assert(text[i] == t0[i]);
            } else if i == l0 {
            } else if i < l0 + 1 + l1 {
                assert(text[i] == t1[i - l0 - 1]);
            } else if i == l0 + 1 + l1 {
            } else if i < l0 + 2 + l1 + l2 {
                assert(text[i] == t2[i - l0 - l1 - 2]);
            } else if i == l0 + 2 + l1 + l2 {
            } else {
                assert(text[i] == t3[i - l0 - l1 - l2 - 3]);
            }
        }
    }
    vstd::utf8::is_ascii_chars_encode_utf8(text);
    let b = encode_utf8(text);
    let d0 = ascii_bytes(t0);
    let d1 = ascii_bytes(t1);
    let d2 = ascii_bytes(t2);
    let d3 = ascii_bytes(t3);
    assert(b =~= ascii_bytes(text));
    assert(ascii_bytes(text) =~= d0 + seq![46u8] + d1 + seq![46u8] + d2 + seq![46u8] + d3);
    lemma_split_dot_free(Seq::empty(), d0);
    lemma_split_dot_free(d0, d1);
    lemma_split_dot_free(d0 + seq![46u8] + d1, d2);
    lemma_split_dot_free(d0 + seq![46u8] + d1 + seq![46u8] + d2, d3);
    let parts = split_on_dot(b);
    assert(parts =~= seq![d0, d1, d2, d3]);
    assert(forall|k: int| 0 <= k < 4 ==> #[trigger] octet_text_ok(parts[k]));
    assert(Seq::new(4, |k: int| decimal_bytes_value(parts[k]) as u8) =~= o);
}

} // verus!
