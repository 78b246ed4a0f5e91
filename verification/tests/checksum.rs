use parsync::delta::checksum::{strong_hash128, weak_hash, RollingChecksum};
use parsync::text::{hex_u128, parse_hex_u128};

#[test]
fn rolling_matches_full_recompute() {
    let data = b"abcdefghijklmnopqrstuvwxyz";
    let win = 8;
    let mut r = RollingChecksum::new(&data[..win]);
    for i in 0..=(data.len() - win) {
        let full = weak_hash(&data[i..i + win]);
        assert_eq!(r.sum(), full);
        if i + win < data.len() {
            r.roll(data[i], data[i + win]);
        }
    }
}

#[test]
fn weak_hash_of_short_input() {
    // a = 97 + 98 + 99 = 294, b = 97 + 195 + 294 = 586
    assert_eq!(weak_hash(b"abc"), 586 * 65536 + 294);
    assert_eq!(weak_hash(b""), 0);
}

#[test]
fn weak_hash_wraps_both_halves() {
    let data = vec![0xff_u8; 70_000];
    let mut a: u64 = 0;
    let mut b: u64 = 0;
    for &x in &data {
        a = (a + x as u64) % 65536;
        b = (b + a) % 65536;
    }
    assert_eq!(weak_hash(&data) as u64, (b << 16) | a);
}

#[test]
fn rolling_over_window_of_one() {
    let data = b"xyz";
    let mut r = RollingChecksum::new(&data[..1]);
    r.roll(data[0], data[1]);
    assert_eq!(r.sum(), weak_hash(b"y"));
    r.roll(data[1], data[2]);
    assert_eq!(r.sum(), weak_hash(b"z"));
}

#[test]
fn cloned_checksum_rolls_the_same() {
    let data = b"hello world";
    let r = RollingChecksum::new(&data[..5]);
    let mut c = r.clone();
    c.roll(data[0], data[5]);
    assert_eq!(c.sum(), weak_hash(&data[1..6]));
    assert_eq!(r.sum(), weak_hash(&data[..5]));
}

#[test]
fn strong_hash_is_md5_big_endian() {
    assert_eq!(
        strong_hash128(b"abcdefghijklmnopqrstuvwxyz"),
        0xc3fcd3d76192e4007dfb496cca67e13b
    );
    assert_eq!(strong_hash128(b""), 0xd41d8cd98f00b204e9800998ecf8427e);
}

#[test]
fn hex_u128_is_zero_padded_lower_case() {
    assert_eq!(hex_u128(0xabc), "00000000000000000000000000000abc");
    assert_eq!(hex_u128(u128::MAX), "ffffffffffffffffffffffffffffffff");
    assert_eq!(hex_u128(0xc3fcd3d76192e4007dfb496cca67e13b), "c3fcd3d76192e4007dfb496cca67e13b");
    for v in [0u128, 1, 0xabc, u128::MAX, 0xc3fcd3d76192e4007dfb496cca67e13b] {
        assert_eq!(parse_hex_u128(&hex_u128(v)), Some(v));
    }
}

#[test]
fn hex_text_parses_like_from_str_radix() {
    let cases = [
        "ff",
        "+ff",
        "FF",
        "0000000000000000000000000000000000001",
        "ffffffffffffffffffffffffffffffff",
        "100000000000000000000000000000000",
        "",
        "+",
        "-1",
        "-",
        "12g",
        " 1",
    ];
    for c in cases {
        assert_eq!(parse_hex_u128(c), u128::from_str_radix(c, 16).ok(), "case {c:?}");
    }
    assert_eq!(parse_hex_u128("+ff"), Some(255));
    assert_eq!(parse_hex_u128("100000000000000000000000000000000"), None);
}

#[test]
fn many_rolls_match_recompute_over_long_input() {
    let data: Vec<u8> = (0..5000u32).map(|i| (i * 131 % 251) as u8).collect();
    let win = 700;
    let mut r = RollingChecksum::new(&data[..win]);
    for i in 0..(data.len() - win) {
        r.roll(data[i], data[i + win]);
        assert_eq!(r.sum(), weak_hash(&data[i + 1..i + 1 + win]));
    }
}
