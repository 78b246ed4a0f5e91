//! The RDMA fast path's packets and session tokens: a fixed 40-byte header
//! (magic, protocol version, kind, token, offset, payload length, all
//! big-endian) followed by the payload.
use vstd::prelude::*;

verus! {

use vstd::string::StringSliceAdditionalSpecFns;
use crate::delta::checksum::{be_value, lemma_be_value_bound, lemma_pow256_mono, pow256};
use crate::text::{all_hex_bytes, hex_byte, hex_byte_value, hex_digit, hex_digit_char, push_char};

/// Version of the packet format and of the sender helper's request.
pub const PROTOCOL_VERSION: u16 = 1;
/// Length of a packet header in bytes.
pub const HEADER_LEN: usize = 40;
/// Kind of a packet that carries file data.
pub const KIND_DATA: u8 = 1;
/// Kind of the packet that ends a transfer.
pub const KIND_DONE: u8 = 2;

/// Why the RDMA fast path refused a packet, a token, a request or a
/// transfer.
#[derive(Debug, Clone, Copy, PartialEq, Eq, Structural)]
pub enum RdmaError {
    /// The token text is not 32 characters long.
    TokenLength,
    /// The token text holds a character that is not a hexadecimal digit.
    TokenDigit,
    /// A packet payload longer than `u32::MAX` bytes.
    PayloadTooLarge,
    /// Fewer bytes than a packet header.
    ShortHeader,
    /// The header does not start with the packet magic.
    BadMagic,
    /// The header names another packet protocol version.
    UnsupportedPacketVersion(u16),
    /// The header's payload length disagrees with the packet's length.
    LengthMismatch,
    /// A payload longer than the receiver's chunk size.
    PayloadExceedsChunk { payload_len: u64, chunk_size: u64 },
    /// A data packet that does not continue where the data so far ends.
    OutOfOrder { expected: u64, got: u64 },
    /// The byte count would pass `u64::MAX`.
    ByteCountOverflow,
    /// The data would pass the expected file size.
    ExceedsExpectedSize { next: u64, expected: u64 },
    /// The done packet does not sit where the data ends.
    DoneOffsetMismatch { expected: u64, got: u64 },
    /// A packet kind that is neither data nor done.
    UnknownKind(u8),
    /// The transfer ended before the expected size was reached.
    Incomplete { expected: u64, received: u64 },
    /// The sender request names another helper protocol version.
    UnsupportedHelperVersion(u16),
    /// The destination address is not a dotted-quad IPv4 address.
    BadDestinationAddress,
    /// The source file's size differs from the requested size.
    SourceSizeChanged { expected: u64, got: u64 },
    /// Reading the source gave another number of bytes than requested.
    ReadLengthChanged { expected: u64, read: u64 },
    /// A bind address of all zeros.
    BindAddrUnspecified,
    /// A bind address that is not IPv4.
    BindAddrNotIpv4,
}

/// The eight magic bytes `PRDMA001` that open every packet.
pub open spec fn packet_magic() -> Seq<u8> {
    seq![80u8, 82u8, 68u8, 77u8, 65u8, 48u8, 48u8, 49u8]
}

/// The `n` low bytes of `v`, most significant first.
pub open spec fn be_bytes(v: int, n: nat) -> Seq<u8>
    decreases n,
{
    if n == 0 {
        Seq::empty()
    } else {
        be_bytes(v / 256, (n - 1) as nat).push((v % 256) as u8)
    }
}

/// The bytes of a packet of kind `kind` for session `token`, at file offset
/// `offset`, carrying `payload`.
pub open spec fn encoded_packet(kind: u8, token: Seq<u8>, offset: u64, payload: Seq<u8>) -> Seq<u8> {
    packet_magic() + be_bytes(1, 2) + seq![kind, 0u8] + token + be_bytes(offset as int, 8)
        + be_bytes(payload.len() as int, 4) + payload
}

/// The payload length that a header declares.
pub open spec fn declared_payload_len(b: Seq<u8>) -> int {
    be_value(b.subrange(36, 40))
}

/// The packet protocol version that a header declares.
pub open spec fn declared_version(b: Seq<u8>) -> int {
    be_value(b.subrange(8, 10))
}

/// What is wrong with a packet header, if anything: too short, wrong magic,
/// or another protocol version, checked in that order.
pub open spec fn header_error(b: Seq<u8>) -> Option<RdmaError> {
    if b.len() < 40 {
        Some(RdmaError::ShortHeader)
    } else if b.subrange(0, 8) != packet_magic() {
        Some(RdmaError::BadMagic)
    } else if declared_version(b) != 1 {
        Some(RdmaError::UnsupportedPacketVersion(declared_version(b) as u16))
    } else {
        None
    }
}

/// What is wrong with a whole packet, if anything: a header error, or a
/// declared payload length that disagrees with the packet's length.
pub open spec fn packet_error(b: Seq<u8>) -> Option<RdmaError> {
    match header_error(b) {
        Some(e) => Some(e),
        None => if 40 + declared_payload_len(b) != b.len() {
            Some(RdmaError::LengthMismatch)
        } else {
            None
        },
    }
}

/// A packet taken apart; the payload is borrowed from the packet's bytes.
pub struct DecodedPacket<'a> {
    pub kind: u8,
    pub token: [u8; 16],
    pub offset: u64,
    pub payload: &'a [u8],
}

fn push_be(out: &mut Vec<u8>, v: u64, n: usize)
    requires
        n <= 8,
    ensures
        final(out)@ == old(out)@ + be_bytes(v as int, n as nat),
    decreases n,
{
    if n == 0 {
        assert(old(out)@ + be_bytes(v as int, 0) =~= old(out)@);
        return ;
    }
    push_be(out, v / 256, n - 1);
    out.push((v % 256) as u8);
    proof {
        let b = be_bytes(v as int / 256, (n - 1) as nat);
        assert(be_bytes(v as int, n as nat) == b.push((v as int % 256) as u8));
        assert(final(out)@ =~= old(out)@ + be_bytes(v as int, n as nat));
    }
}

/// Reading back `n` big-endian bytes of `v` gives `v` when it fits.
pub proof fn lemma_be_bytes_value(v: int, n: nat)
    requires
        0 <= v < pow256(n),
    ensures
        be_bytes(v, n).len() == n,
        be_value(be_bytes(v, n)) == v,
    decreases n,
{
    if n > 0 {
        assert(pow256(n) == 256 * pow256((n - 1) as nat));
        assert(v / 256 < pow256((n - 1) as nat)) by (nonlinear_arith)
            requires
                0 <= v < 256 * pow256((n - 1) as nat),
        ;
        lemma_be_bytes_value(v / 256, (n - 1) as nat);
        let b = be_bytes(v / 256, (n - 1) as nat);
        assert(be_bytes(v, n).drop_last() =~= b);
    } else {
        assert(v == 0);
    }
}

/// The packet of kind `kind` for session `token` at file offset `offset`
/// carrying `payload`; refused when the payload is longer than `u32::MAX`.
pub fn encode_packet(kind: u8, token: &[u8; 16], offset: u64, payload: &[u8]) -> (r: Result<
    Vec<u8>,
    RdmaError,
>)
    ensures
        match r {
            Ok(p) => payload@.len() <= u32::MAX && p@ == encoded_packet(
                kind,
                token@,
                offset,
                payload@,
            ),
            Err(e) => payload@.len() > u32::MAX && e == RdmaError::PayloadTooLarge,
        },
{
    if payload.len() > 0xffff_ffff {
        return Err(RdmaError::PayloadTooLarge);
    }
    let mut packet: Vec<u8> = Vec::new();
    let magic: [u8; 8] = [80u8, 82u8, 68u8, 77u8, 65u8, 48u8, 48u8, 49u8];
    packet.extend_from_slice(&magic);
    assert(packet@ =~= packet_magic());
    push_be(&mut packet, PROTOCOL_VERSION as u64, 2);
    packet.push(kind);
    packet.push(0);
    packet.extend_from_slice(token);
    push_be(&mut packet, offset, 8);
    push_be(&mut packet, payload.len() as u64, 4);
    packet.extend_from_slice(payload);
    assert(packet@ =~= encoded_packet(kind, token@, offset, payload@));
    Ok(packet)
}

fn read_be(buf: &[u8], start: usize, n: usize) -> (v: u64)
    requires
        n <= 8,
        start + n <= buf@.len(),
    ensures
        v as int == be_value(buf@.subrange(start as int, start + n)),
{
    let mut acc: u64 = 0;
    let mut i: usize = 0;
    assert(buf@.subrange(start as int, start as int) =~= Seq::<u8>::empty());
    proof {
        reveal_with_fuel(pow256, 9);
    }
    assert(pow256(8) == 0x1_0000_0000_0000_0000);
    assert(buf@.len() == buf.len());
    while i < n
        invariant
            buf@.len() <= usize::MAX,
            n <= 8,
            start + n <= buf@.len(),
            i <= n,
            acc as int == be_value(buf@.subrange(start as int, start + i)),
            pow256(8) == 0x1_0000_0000_0000_0000,
        decreases n - i,
    {
        let ghost next = buf@.subrange(start as int, start + i + 1);
        assert(next.drop_last() =~= buf@.subrange(start as int, start + i));
        proof {
            lemma_be_value_bound(next);
            lemma_pow256_mono(next.len(), 8);
        }
        acc = acc * 256 + buf[start + i] as u64;
        i = i + 1;
    }
    acc
}

fn check_header(header: &[u8]) -> (r: Result<(), RdmaError>)
    ensures
        match r {
            Ok(_) => header_error(header@) is None,
            Err(e) => header_error(header@) == Some(e),
        },
{
    if header.len() < HEADER_LEN {
        return Err(RdmaError::ShortHeader);
    }
    let magic: [u8; 8] = [80u8, 82u8, 68u8, 77u8, 65u8, 48u8, 48u8, 49u8];
    let mut i: usize = 0;
    while i < 8
        invariant
            i <= 8,
            header@.len() >= 40,
            magic@ == packet_magic(),
            forall|k: int| 0 <= k < i ==> header@[k] == packet_magic()[k],
        decreases 8 - i,
    {
        if header[i] != magic[i] {
            assert(header@.subrange(0, 8)[i as int] != packet_magic()[i as int]);
            return Err(RdmaError::BadMagic);
        }
        i = i + 1;
    }
    assert(header@.subrange(0, 8) =~= packet_magic());
    let version = read_be(header, 8, 2);
    if version != PROTOCOL_VERSION as u64 {
        proof {
            lemma_be_value_bound(header@.subrange(8, 10));
            reveal_with_fuel(pow256, 3);
        }
        return Err(RdmaError::UnsupportedPacketVersion(version as u16));
    }
    Ok(())
}

/// The payload length that a packet header declares, once the header has
/// passed its checks (length, magic, protocol version).
pub fn packet_payload_len(header: &[u8]) -> (r: Result<usize, RdmaError>)
    ensures
        match r {
            Ok(n) => header_error(header@) is None && n as int == declared_payload_len(header@),
            Err(e) => header_error(header@) == Some(e),
        },
{
    check_header(header)?;
    let n = read_be(header, 36, 4);
    proof {
        lemma_be_value_bound(header@.subrange(36, 40));
        reveal_with_fuel(pow256, 5);
    }
    Ok(n as usize)
}

/// Takes a packet apart, once it has passed its checks (those of the header,
/// then that the declared payload length is what follows the header).
pub fn decode_packet(buf: &[u8]) -> (r: Result<DecodedPacket<'_>, RdmaError>)
    ensures
        match r {
            Ok(p) => {
                &&& packet_error(buf@) is None
                &&& p.kind == buf@[10]
                &&& p.token@ == buf@.subrange(12, 28)
                &&& p.offset as int == be_value(buf@.subrange(28, 36))
                &&& p.payload@ == buf@.subrange(40, buf@.len() as int)
            },
            Err(e) => packet_error(buf@) == Some(e),
        },
{
    let payload_len = packet_payload_len(buf)?;
    if payload_len != buf.len() - HEADER_LEN {
        return Err(RdmaError::LengthMismatch);
    }
    let kind = buf[10];
    let mut token = [0u8; 16];
    let mut i: usize = 0;
    while i < 16
        invariant
            i <= 16,
            buf@.len() >= 40,
            forall|k: int| 0 <= k < i ==> token@[k] == buf@[12 + k],
        decreases 16 - i,
    {
        token[i] = buf[12 + i];
        i = i + 1;
    }
    assert(token@ =~= buf@.subrange(12, 28));
    let offset = read_be(buf, 28, 8);
    let payload = vstd::slice::slice_subrange(buf, HEADER_LEN, buf.len());
    Ok(DecodedPacket { kind, token, offset, payload })
}

/// Taking apart a packet that `encode_packet` built gives back its kind,
/// token, offset and payload: the packet passes every check.
pub proof fn lemma_packet_round_trip(kind: u8, token: Seq<u8>, offset: u64, payload: Seq<u8>)
    requires
        token.len() == 16,
        payload.len() <= u32::MAX,
    ensures
        ({
            let b = encoded_packet(kind, token, offset, payload);
            &&& packet_error(b) is None
            &&& declared_payload_len(b) == payload.len()
            &&& b[10] == kind
            &&& b.subrange(12, 28) == token
            &&& be_value(b.subrange(28, 36)) == offset
            &&& b.subrange(40, b.len() as int) == payload
        }),
{
    reveal_with_fuel(pow256, 9);
    lemma_be_bytes_value(1, 2);
    lemma_be_bytes_value(offset as int, 8);
    lemma_be_bytes_value(payload.len() as int, 4);
    let b = encoded_packet(kind, token, offset, payload);
    let v = be_bytes(1, 2);
    let o = be_bytes(offset as int, 8);
    let l = be_bytes(payload.len() as int, 4);
    assert(b.subrange(0, 8) =~= packet_magic());
    assert(b.subrange(8, 10) =~= v);
    assert(b.subrange(12, 28) =~= token);
    assert(b.subrange(28, 36) =~= o);
    assert(b.subrange(36, 40) =~= l);
    assert(b.subrange(40, b.len() as int) =~= payload);
}

/// Two lower-case hexadecimal digits per byte, most significant digit first.
pub open spec fn hex_bytes_text(b: Seq<u8>) -> Seq<char>
    decreases b.len(),
{
    if b.len() == 0 {
        Seq::empty()
    } else {
        hex_bytes_text(b.drop_last()) + seq![
            hex_digit_char(b.last() as int / 16),
            hex_digit_char(b.last() as int % 16),
        ]
    }
}

/// `bytes` as lower-case hexadecimal text, two digits per byte.
pub fn hex_encode(bytes: &[u8]) -> (s: String)
    ensures
        s@ == hex_bytes_text(bytes@),
{
    let mut out = String::new();
    let mut i: usize = 0;
    assert(bytes@.take(0) =~= Seq::<u8>::empty());
    while i < bytes.len()
        invariant
            i <= bytes@.len(),
            out@ == hex_bytes_text(bytes@.take(i as int)),
        decreases bytes@.len() - i,
    {
        let byte = bytes[i];
        let ghost next = bytes@.take(i as int + 1);
        assert(next.drop_last() =~= bytes@.take(i as int));
        push_char(&mut out, hex_digit(byte / 16));
        push_char(&mut out, hex_digit(byte % 16));
        assert(out@ =~= hex_bytes_text(next));
        i = i + 1;
    }
    assert(bytes@.take(bytes@.len() as int) =~= bytes@);
    out
}

/// The value of a hexadecimal digit byte, or zero for any other byte.
pub open spec fn hex_val(b: u8) -> int {
    match hex_byte_value(b) {
        Some(v) => v,
        None => 0,
    }
}

/// The 16 bytes that token text with bytes `b` stands for: exactly 32
/// hexadecimal digits of either case, two per byte, most significant first.
pub open spec fn token_text_value(b: Seq<u8>) -> Option<Seq<u8>> {
    if b.len() == 32 && all_hex_bytes(b) {
        Some(Seq::new(16, |k: int| (16 * hex_val(b[2 * k]) + hex_val(b[2 * k + 1])) as u8))
    } else {
        None
    }
}

/// The value of one hexadecimal digit of a token.
pub fn hex_nibble(byte: u8) -> (r: Result<u8, RdmaError>)
    ensures
        match r {
            Ok(v) => hex_byte_value(byte) == Some(v as int),
            Err(e) => hex_byte_value(byte) is None && e == RdmaError::TokenDigit,
        },
{
    match hex_byte(byte) {
        Some(v) => Ok(v),
        None => Err(RdmaError::TokenDigit),
    }
}

/// The 16-byte session token written as 32 hexadecimal digits.
pub fn hex_decode_16(value: &str) -> (r: Result<[u8; 16], RdmaError>)
    ensures
        match r {
            Ok(t) => token_text_value(value.spec_bytes()) == Some(t@),
            Err(e) => token_text_value(value.spec_bytes()) is None && e == if value.spec_bytes().len()
                != 32 {
                RdmaError::TokenLength
            } else {
                RdmaError::TokenDigit
            },
        },
{
    let b = value.as_bytes();
    if b.len() != 32 {
        return Err(RdmaError::TokenLength);
    }
    let mut out = [0u8; 16];
    let mut idx: usize = 0;
    while idx < 16
        invariant
            idx <= 16,
            b@ == value.spec_bytes(),
            b@.len() == 32,
            forall|j: int| 0 <= j < 2 * idx ==> #[trigger] hex_byte_value(b@[j]) is Some,
            forall|k: int|
                0 <= k < idx ==> out@[k] == (16 * hex_val(b@[2 * k]) + hex_val(b@[2 * k + 1])) as u8,
        decreases 16 - idx,
    {
        let hi = match hex_nibble(b[2 * idx]) {
            Ok(v) => v,
            Err(e) => {
                assert(!all_hex_bytes(b@)) by {
                    assert(hex_byte_value(b@[2 * idx as int]) is None);
                }
                return Err(e);
            },
        };
        let lo = match hex_nibble(b[2 * idx + 1]) {
            Ok(v) => v,
            Err(e) => {
                assert(!all_hex_bytes(b@)) by {
                    assert(hex_byte_value(b@[2 * idx as int + 1]) is None);
                }
                return Err(e);
            },
        };
        let ghost before = out@;
        out[idx] = hi * 16 + lo;
        assert forall|k: int|
            0 <= k < idx + 1 implies out@[k] == (16 * hex_val(b@[2 * k]) + hex_val(
                b@[2 * k + 1],
            )) as u8 by {
            if k < idx {
                assert(out@[k] == before[k]);
            }
        }
        idx = idx + 1;
    }
    assert(all_hex_bytes(b@));
    assert(out@ =~= Seq::new(
        16,
        |k: int| (16 * hex_val(b@[2 * k]) + hex_val(b@[2 * k + 1])) as u8,
    ));
    Ok(out)
}

proof fn lemma_hex_bytes_text_index(b: Seq<u8>)
    ensures
        hex_bytes_text(b).len() == 2 * b.len(),
        forall|k: int|
            #![trigger b[k]]
            0 <= k < b.len() ==> hex_bytes_text(b)[2 * k] == hex_digit_char(b[k] as int / 16)
                && hex_bytes_text(b)[2 * k + 1] == hex_digit_char(b[k] as int % 16),
    decreases b.len(),
{
    if b.len() > 0 {
        let p = b.drop_last();
        lemma_hex_bytes_text_index(p);
        assert forall|k: int|
            #![trigger b[k]]
            0 <= k < b.len() implies hex_bytes_text(b)[2 * k] == hex_digit_char(b[k] as int / 16)
                && hex_bytes_text(b)[2 * k + 1] == hex_digit_char(b[k] as int % 16) by {
            if k < p.len() {
                assert(b[k] == p[k]);
            }
        }
    }
}

proof fn lemma_hex_digit_char_byte(d: int)
    requires
        0 <= d < 16,
    ensures
        '\0' <= hex_digit_char(d) <= '\u{7f}',
        hex_byte_value(hex_digit_char(d) as u8) == Some(d),
{
}

/// The digit that `hex_bytes_text(t)` holds at position `j`.
spec fn text_digit(t: Seq<u8>, j: int) -> int {
    if j % 2 == 0 {
        t[j / 2] as int / 16
    } else {
        t[j / 2] as int % 16
    }
}

proof fn lemma_text_char(t: Seq<u8>, j: int)
    requires
        0 <= j < 2 * t.len(),
        hex_bytes_text(t).len() == 2 * t.len(),
        forall|k: int|
            #![trigger t[k]]
            0 <= k < t.len() ==> hex_bytes_text(t)[2 * k] == hex_digit_char(t[k] as int / 16)
                && hex_bytes_text(t)[2 * k + 1] == hex_digit_char(t[k] as int % 16),
    ensures
        '\0' <= hex_bytes_text(t)[j] <= '\u{7f}',
        hex_byte_value(hex_bytes_text(t)[j] as u8) == Some(text_digit(t, j)),
{
    let k = j / 2;
    assert(t[k] == t[k]);
    if j % 2 == 0 {
        assert(j == 2 * k);
        lemma_hex_digit_char_byte(t[k] as int / 16);
    } else {
        assert(j == 2 * k + 1);
        lemma_hex_digit_char_byte(t[k] as int % 16);
    }
}

proof fn lemma_text_bytes(t: Seq<u8>)
    ensures
        vstd::utf8::encode_utf8(hex_bytes_text(t)).len() == 2 * t.len(),
        forall|j: int|
            0 <= j < 2 * t.len() ==> hex_byte_value(
                #[trigger] vstd::utf8::encode_utf8(hex_bytes_text(t))[j],
            ) == Some(text_digit(t, j)),
{
    let text = hex_bytes_text(t);
    lemma_hex_bytes_text_index(t);
    assert forall|j: int| 0 <= j < text.len() implies '\0' <= #[trigger] text[j] <= '\u{7f}' by {
        lemma_text_char(t, j);
    }
    vstd::utf8::is_ascii_chars_encode_utf8(text);
    let b = vstd::utf8::encode_utf8(text);
    assert forall|j: int| 0 <= j < 2 * t.len() implies hex_byte_value(#[trigger] b[j]) == Some(
        text_digit(t, j),
    ) by {
        lemma_text_char(t, j);
        assert(b[j] == text[j] as u8);
    }
}

/// Token text written by `hex_encode` reads back, through `hex_decode_16`'s
/// rule, as the same 16 bytes.
pub proof fn lemma_token_text_round_trip(t: Seq<u8>)
    requires
        t.len() == 16,
    ensures
        token_text_value(vstd::utf8::encode_utf8(hex_bytes_text(t))) == Some(t),
{
    lemma_text_bytes(t);
    let b = vstd::utf8::encode_utf8(hex_bytes_text(t));
    assert forall|j: int| 0 <= j < b.len() implies #[trigger] hex_byte_value(b[j]) is Some by {
        assert(hex_byte_value(b[j]) == Some(text_digit(t, j)));
    }
    let v = Seq::new(16, |k: int| (16 * hex_val(b[2 * k]) + hex_val(b[2 * k + 1])) as u8);
    assert forall|k: int| 0 <= k < 16 implies v[k] == t[k] by {
        assert(hex_byte_value(b[2 * k]) == Some(text_digit(t, 2 * k)));
        assert(hex_byte_value(b[2 * k + 1]) == Some(text_digit(t, 2 * k + 1)));
        assert((2 * k) % 2 == 0 && (2 * k) / 2 == k);
        assert((2 * k + 1) % 2 == 1 && (2 * k + 1) / 2 == k);
    }
    assert(v =~= t);
}

pub(crate) proof fn lemma_be_bytes_len(v: int, n: nat)
    ensures
        be_bytes(v, n).len() == n,
    decreases n,
{
    if n > 0 {
        lemma_be_bytes_len(v / 256, (n - 1) as nat);
    }
}

} // verus!
