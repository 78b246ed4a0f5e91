//! The RDMA fast path: its settings, its packet format and the rules by
//! which a sender and a receiver move a file.
pub mod ipv4;
pub mod packet;
pub mod transfer;

pub use packet::{decode_packet, encode_packet, packet_payload_len, DecodedPacket, RdmaError};
pub use packet::{hex_decode_16, hex_encode, hex_nibble, HEADER_LEN, KIND_DATA, KIND_DONE, PROTOCOL_VERSION};

use vstd::prelude::*;

verus! {

use crate::rdma::ipv4::{format_ipv4, ipv4_text};
use crate::rdma::packet::{be_bytes, hex_bytes_text};
use crate::text::push_char;

/// Files smaller than this are not sent over RDMA.
pub const DEFAULT_RDMA_MIN_SIZE: u64 = 64 * 1024 * 1024;
/// The default payload size of one RDMA packet.
pub const DEFAULT_RDMA_CHUNK_SIZE: usize = 64 * 1024;

/// Whether the RDMA fast path is tried, skipped, or insisted on.
#[derive(Debug, Clone, Copy, PartialEq, Eq, Structural)]
pub enum RdmaMode {
    Auto,
    Off,
    Require,
}

impl Default for RdmaMode {
    fn default() -> (m: Self)
        ensures
            m == RdmaMode::Auto,
    {
        RdmaMode::Auto
    }
}

/// Whether a character is white space in the Unicode sense (what
/// `char::is_whitespace` tests, and what `str::trim` strips).
pub open spec fn is_unicode_whitespace(c: char) -> bool {
    let u = c as u32;
    ||| 9 <= u <= 13
    ||| u == 0x20
    ||| u == 0x85
    ||| u == 0xa0
    ||| u == 0x1680
    ||| 0x2000 <= u <= 0x200a
    ||| u == 0x2028
    ||| u == 0x2029
    ||| u == 0x202f
    ||| u == 0x205f
    ||| u == 0x3000
}

/// `s` without its leading white space.
pub open spec fn trim_start(s: Seq<char>) -> Seq<char>
    decreases s.len(),
{
    if s.len() > 0 && is_unicode_whitespace(s[0]) {
        trim_start(s.drop_first())
    } else {
        s
    }
}

/// `s` without its trailing white space.
pub open spec fn trim_end(s: Seq<char>) -> Seq<char>
    decreases s.len(),
{
    if s.len() > 0 && is_unicode_whitespace(s.last()) {
        trim_end(s.drop_last())
    } else {
        s
    }
}

/// `c` with ASCII upper-case letters made lower-case.
pub open spec fn ascii_lower(c: char) -> char {
    if 'A' <= c <= 'Z' {
        ((c as u32) + 32) as char
    } else {
        c
    }
}

/// A setting as it is compared: trimmed of white space, ASCII lower-case.
pub open spec fn normalized_setting(s: Seq<char>) -> Seq<char> {
    trim_end(trim_start(s)).map_values(|c: char| ascii_lower(c))
}

/// The mode that a normalized setting names, if any.
pub open spec fn mode_for_word(w: Seq<char>) -> Option<RdmaMode> {
    if w == seq!['a', 'u', 't', 'o'] || w == seq!['o', 'n'] || w == seq!['t', 'r', 'u', 'e'] || w
        == seq!['y', 'e', 's'] || w == seq!['1'] {
        Some(RdmaMode::Auto)
    } else if w == seq!['o', 'f', 'f'] || w == seq!['f', 'a', 'l', 's', 'e'] || w == seq![
        'n',
        'o',
    ] || w == seq!['0'] || w == seq!['d', 'i', 's', 'a', 'b', 'l', 'e', 'd'] {
        Some(RdmaMode::Off)
    } else if w == seq!['r', 'e', 'q', 'u', 'i', 'r', 'e'] || w == seq![
        'r',
        'e',
        'q',
        'u',
        'i',
        'r',
        'e',
        'd',
    ] || w == seq!['f', 'o', 'r', 'c', 'e'] {
        Some(RdmaMode::Require)
    } else {
        None
    }
}

/// The message for a setting that names no mode.
pub open spec fn invalid_mode_message(w: Seq<char>) -> Seq<char> {
    "invalid RDMA mode '"@ + w + "' (expected auto, off, or require)"@
}

/// The name of a mode.
pub open spec fn mode_name(m: RdmaMode) -> Seq<char> {
    match m {
        RdmaMode::Auto => seq!['a', 'u', 't', 'o'],
        RdmaMode::Off => seq!['o', 'f', 'f'],
        RdmaMode::Require => seq!['r', 'e', 'q', 'u', 'i', 'r', 'e'],
    }
}

proof fn lemma_trim_start_skips(pre: Seq<char>, x: Seq<char>)
    requires
        forall|i: int| 0 <= i < pre.len() ==> is_unicode_whitespace(#[trigger] pre[i]),
    ensures
        trim_start(pre + x) == trim_start(x),
    decreases pre.len(),
{
    if pre.len() > 0 {
        assert((pre + x)[0] == pre[0]);
        assert((pre + x).drop_first() =~= pre.drop_first() + x);
        assert forall|i: int| 0 <= i < pre.drop_first().len() implies is_unicode_whitespace(
            #[trigger] pre.drop_first()[i],
        ) by {
            assert(pre.drop_first()[i] == pre[i + 1]);
        }
        lemma_trim_start_skips(pre.drop_first(), x);
    } else {
        assert(pre + x =~= x);
    }
}

proof fn lemma_trim_end_skips(x: Seq<char>, post: Seq<char>)
    requires
        forall|i: int| 0 <= i < post.len() ==> is_unicode_whitespace(#[trigger] post[i]),
    ensures
        trim_end(x + post) == trim_end(x),
    decreases post.len(),
{
    if post.len() > 0 {
        assert((x + post).last() == post.last());
        assert((x + post).drop_last() =~= x + post.drop_last());
        assert forall|i: int| 0 <= i < post.drop_last().len() implies is_unicode_whitespace(
            #[trigger] post.drop_last()[i],
        ) by {
            assert(post.drop_last()[i] == post[i]);
        }
        lemma_trim_end_skips(x, post.drop_last());
    } else {
        assert(x + post =~= x);
    }
}

/// A setting is read the same whatever white space surrounds it and
/// whatever the case of its ASCII letters: for white space `pre` and `post`
/// around a core that is empty or begins and ends with other characters,
/// the normalized setting has the core's length, ASCII upper-case letters
/// of the core become the matching lower-case letters, and every other
/// character is kept as it is.
pub proof fn lemma_setting_normalization(pre: Seq<char>, core: Seq<char>, post: Seq<char>)
    requires
        forall|i: int| 0 <= i < pre.len() ==> is_unicode_whitespace(#[trigger] pre[i]),
        forall|i: int| 0 <= i < post.len() ==> is_unicode_whitespace(#[trigger] post[i]),
        core.len() > 0 ==> !is_unicode_whitespace(core[0]) && !is_unicode_whitespace(core.last()),
    ensures
        ({
            let r = normalized_setting(pre + core + post);
            &&& r.len() == core.len()
            &&& forall|i: int|
                0 <= i < core.len() ==> (if 'A' <= #[trigger] core[i] <= 'Z' {
                    r[i] as u32 == core[i] as u32 + 32
                } else {
                    r[i] == core[i]
                })
        }),
{
    let s = pre + core + post;
    assert(s =~= pre + (core + post));
    lemma_trim_start_skips(pre, core + post);
    let t = trim_start(core + post);
    if core.len() > 0 {
        assert((core + post)[0] == core[0]);
        assert(t == core + post);
        lemma_trim_end_skips(core, post);
        assert(trim_end(core) == core);
        assert(trim_end(t) == core);
    } else {
        assert(core + post =~= Seq::<char>::empty() + post);
        lemma_trim_start_skips(post, Seq::<char>::empty());
        assert(post + Seq::<char>::empty() =~= post);
        assert(core + post =~= post);
        assert(trim_start(Seq::<char>::empty()) == Seq::<char>::empty());
        assert(trim_end(t) == Seq::<char>::empty());
    }
    assert(trim_end(trim_start(s)) == core);
    let r = normalized_setting(s);
    assert forall|i: int| 0 <= i < core.len() implies (if 'A' <= #[trigger] core[i] <= 'Z' {
        r[i] as u32 == core[i] as u32 + 32
    } else {
        r[i] == core[i]
    }) by {
        assert(r[i] == ascii_lower(core[i]));
    }
}

/// The words a mode setting may use, once trimmed and lower-cased: exactly
/// `auto`, `on`, `true`, `yes` and `1` name `Auto`; exactly `off`, `false`,
/// `no`, `0` and `disabled` name `Off`; exactly `require`, `required` and
/// `force` name `Require`; every other word names no mode. The name of each
/// mode is one of its words.
pub proof fn lemma_mode_words(w: Seq<char>, m: RdmaMode)
    ensures
        mode_for_word(w) == Some(RdmaMode::Auto) <==> (w =~= seq!['a', 'u', 't', 'o'] || w
            =~= seq!['o', 'n'] || w =~= seq!['t', 'r', 'u', 'e'] || w =~= seq!['y', 'e', 's']
            || w =~= seq!['1']),
        mode_for_word(w) == Some(RdmaMode::Off) <==> (w =~= seq!['o', 'f', 'f'] || w =~= seq![
            'f',
            'a',
            'l',
            's',
            'e',
        ] || w =~= seq!['n', 'o'] || w =~= seq!['0'] || w =~= seq![
            'd',
            'i',
            's',
            'a',
            'b',
            'l',
            'e',
            'd',
        ]),
        mode_for_word(w) == Some(RdmaMode::Require) <==> (w =~= seq![
            'r',
            'e',
            'q',
            'u',
            'i',
            'r',
            'e',
        ] || w =~= seq!['r', 'e', 'q', 'u', 'i', 'r', 'e', 'd'] || w =~= seq![
            'f',
            'o',
            'r',
            'c',
            'e',
        ]),
        mode_for_word(mode_name(m)) == Some(m),
{
    assert(seq!['1'][0] != seq!['0'][0]);
    assert(seq!['o', 'n'][0] != seq!['n', 'o'][0]);
    assert(seq!['y', 'e', 's'][0] != seq!['o', 'f', 'f'][0]);
    assert(seq!['f', 'a', 'l', 's', 'e'][1] != seq!['f', 'o', 'r', 'c', 'e'][1]);
    assert(seq!['d', 'i', 's', 'a', 'b', 'l', 'e', 'd'][0] != seq![
        'r',
        'e',
        'q',
        'u',
        'i',
        'r',
        'e',
        'd',
    ][0]);
}

fn is_whitespace_char(c: char) -> (b: bool)
    ensures
        b == is_unicode_whitespace(c),
{
    let u = c as u32;
    (9 <= u && u <= 13) || u == 0x20 || u == 0x85 || u == 0xa0 || u == 0x1680 || (0x2000 <= u
        && u <= 0x200a) || u == 0x2028 || u == 0x2029 || u == 0x202f || u == 0x205f || u == 0x3000
}

fn lower_char(c: char) -> (r: char)
    ensures
        r == ascii_lower(c),
{
    if 'A' <= c && c <= 'Z' {
        ((c as u32) + 32) as u8 as char
    } else {
        c
    }
}

fn chars_equal(a: &Vec<char>, b: &[char]) -> (r: bool)
    ensures
        r == (a@ == b@),
{
    if a.len() != b.len() {
        return false;
    }
    let mut i: usize = 0;
    while i < a.len()
        invariant
            i <= a@.len(),
            a@.len() == b@.len(),
            forall|k: int| 0 <= k < i ==> a@[k] == b@[k],
        decreases a@.len() - i,
    {
        if a[i] != b[i] {
            return false;
        }
        i = i + 1;
    }
    assert(a@ =~= b@);
    true
}

fn push_chars(s: &mut String, cs: &[char])
    ensures
        final(s)@ == old(s)@ + cs@,
{
    let mut i: usize = 0;
    while i < cs.len()
        invariant
            i <= cs@.len(),
            s@ == old(s)@ + cs@.take(i as int),
        decreases cs@.len() - i,
    {
        push_char(s, cs[i]);
        assert(cs@.take(i as int + 1) =~= cs@.take(i as int).push(cs@[i as int]));
        i = i + 1;
    }
    assert(cs@.take(cs@.len() as int) =~= cs@);
}

impl RdmaMode {
    /// Reads a mode setting: after trimming white space and lower-casing
    /// ASCII letters, `auto`, `on`, `true`, `yes` and `1` mean `Auto`; `off`,
    /// `false`, `no`, `0` and `disabled` mean `Off`; `require`, `required`
    /// and `force` mean `Require`. Anything else is refused with a message
    /// that quotes the normalized setting.
    pub fn parse_setting(value: &str) -> (r: Result<RdmaMode, String>)
        ensures
            match mode_for_word(normalized_setting(value@)) {
                Some(m) => r == Ok::<RdmaMode, String>(m),
                None => r matches Err(msg) && msg@ == invalid_mode_message(
                    normalized_setting(value@),
                ),
            },
    {
        let n = value.unicode_len();
        let ghost s = value@;
        let mut start: usize = 0;
        assert(s.subrange(0, n as int) =~= s);
        while start < n && is_whitespace_char(value.get_char(start))
            invariant
                n == s.len(),
                s == value@,
                start <= n,
                trim_start(s) == trim_start(s.subrange(start as int, n as int)),
            decreases n - start,
        {
            assert(s.subrange(start as int, n as int).drop_first() =~= s.subrange(
                start + 1,
                n as int,
            ));
            start = start + 1;
        }
        assert(trim_start(s) == s.subrange(start as int, n as int)) by {
            let t = s.subrange(start as int, n as int);
            if t.len() > 0 {
                assert(t[0] == s[start as int]);
            }
        }
        let mut end: usize = n;
        while end > start && is_whitespace_char(value.get_char(end - 1))
            invariant
                n == s.len(),
                s == value@,
                start <= end <= n,
                trim_end(trim_start(s)) == trim_end(s.subrange(start as int, end as int)),
                trim_start(s) == s.subrange(start as int, n as int),
            decreases end - start,
        {
            assert(s.subrange(start as int, end as int).drop_last() =~= s.subrange(
                start as int,
                end - 1,
            ));
            end = end - 1;
        }
        assert(trim_end(trim_start(s)) == s.subrange(start as int, end as int)) by {
            let t = s.subrange(start as int, end as int);
            if t.len() > 0 {
                assert(t.last() == s[end - 1]);
            }
        }
        let mut word: Vec<char> = Vec::new();
        let mut i: usize = start;
        while i < end
            invariant
                n == s.len(),
                s == value@,
                start <= i <= end <= n,
                word@ == s.subrange(start as int, i as int).map_values(|c: char| ascii_lower(c)),
            decreases end - i,
        {
            let c = lower_char(value.get_char(i));
            word.push(c);
            assert(s.subrange(start as int, i + 1).map_values(|c: char| ascii_lower(c))
                =~= s.subrange(start as int, i as int).map_values(|c: char| ascii_lower(c)).push(
                ascii_lower(s[i as int]),
            ));
            i = i + 1;
        }
        assert(word@ == normalized_setting(value@));
        let w_auto = ['a', 'u', 't', 'o'];
        let w_on = ['o', 'n'];
        let w_true = ['t', 'r', 'u', 'e'];
        let w_yes = ['y', 'e', 's'];
        let w_one = ['1'];
        assert(w_auto@ =~= seq!['a', 'u', 't', 'o']);
        assert(w_on@ =~= seq!['o', 'n']);
        assert(w_true@ =~= seq!['t', 'r', 'u', 'e']);
        assert(w_yes@ =~= seq!['y', 'e', 's']);
        assert(w_one@ =~= seq!['1']);
        if chars_equal(&word, &w_auto) || chars_equal(&word, &w_on) || chars_equal(&word, &w_true)
            || chars_equal(&word, &w_yes) || chars_equal(&word, &w_one) {
            return Ok(RdmaMode::Auto);
        }
        let w_off = ['o', 'f', 'f'];
        let w_false = ['f', 'a', 'l', 's', 'e'];
        let w_no = ['n', 'o'];
        let w_zero = ['0'];
        let w_disabled = ['d', 'i', 's', 'a', 'b', 'l', 'e', 'd'];
        assert(w_off@ =~= seq!['o', 'f', 'f']);
        assert(w_false@ =~= seq!['f', 'a', 'l', 's', 'e']);
        assert(w_no@ =~= seq!['n', 'o']);
        assert(w_zero@ =~= seq!['0']);
        assert(w_disabled@ =~= seq!['d', 'i', 's', 'a', 'b', 'l', 'e', 'd']);
        if chars_equal(&word, &w_off) || chars_equal(&word, &w_false) || chars_equal(&word, &w_no)
            || chars_equal(&word, &w_zero) || chars_equal(&word, &w_disabled) {
            return Ok(RdmaMode::Off);
        }
        let w_require = ['r', 'e', 'q', 'u', 'i', 'r', 'e'];
        let w_required = ['r', 'e', 'q', 'u', 'i', 'r', 'e', 'd'];
        let w_force = ['f', 'o', 'r', 'c', 'e'];
        assert(w_require@ =~= seq!['r', 'e', 'q', 'u', 'i', 'r', 'e']);
        assert(w_required@ =~= seq!['r', 'e', 'q', 'u', 'i', 'r', 'e', 'd']);
        assert(w_force@ =~= seq!['f', 'o', 'r', 'c', 'e']);
        if chars_equal(&word, &w_require) || chars_equal(&word, &w_required) || chars_equal(
            &word,
            &w_force,
        ) {
            return Ok(RdmaMode::Require);
        }
        let mut msg = String::new();
        let prefix = "invalid RDMA mode '";
        let suffix = "' (expected auto, off, or require)";
        msg.append(prefix);
        push_chars(&mut msg, word.as_slice());
        msg.append(suffix);
        Err(msg)
    }

    /// The mode's name: `auto`, `off` or `require`.
    pub fn name(&self) -> (s: &'static str)
        ensures
            s@ == mode_name(*self),
    {
        match self {
            RdmaMode::Auto => {
                proof {
                    reveal_strlit("auto");
                }
                "auto"
            },
            RdmaMode::Off => {
                proof {
                    reveal_strlit("off");
                }
                "off"
            },
            RdmaMode::Require => {
                proof {
                    reveal_strlit("require");
                }
                "require"
            },
        }
    }
}

impl std::str::FromStr for RdmaMode {
    type Err = String;

    fn from_str(value: &str) -> (r: Result<Self, Self::Err>)
        ensures
            match mode_for_word(normalized_setting(value@)) {
                Some(m) => r == Ok::<RdmaMode, String>(m),
                None => r matches Err(msg) && msg@ == invalid_mode_message(
                    normalized_setting(value@),
                ),
            },
    {
        RdmaMode::parse_setting(value)
    }
}

/// The outcome of trying the RDMA fast path for one file.
#[derive(Debug, Clone)]
pub enum RdmaCopyResult {
    Copied { bytes: u64, chunks: u64 },
    Unavailable { reason: String, cache_for_run: bool },
}

impl RdmaCopyResult {
    /// The fast path was not available for this file; later files may try it
    /// again.
    pub fn unavailable(reason: String) -> (r: Self)
        ensures
            r matches RdmaCopyResult::Unavailable { reason: msg, cache_for_run } && msg@
                == reason@ && !cache_for_run,
    {
        RdmaCopyResult::Unavailable { reason, cache_for_run: false }
    }

    /// The fast path could not be set up; the rest of the run does not try it
    /// again.
    pub fn setup_unavailable(reason: String) -> (r: Self)
        ensures
            r matches RdmaCopyResult::Unavailable { reason: msg, cache_for_run } && msg@
                == reason@ && cache_for_run,
    {
        RdmaCopyResult::Unavailable { reason, cache_for_run: true }
    }
}

/// What the receiver asks the sender helper to do: send one file to the
/// receiver's address and port under a session token.
#[derive(Debug, Clone)]
pub struct RdmaSendRequest {
    pub protocol_version: u16,
    pub source_path: String,
    pub destination_addr: String,
    pub destination_port: u16,
    pub token_hex: String,
    pub file_size: u64,
    pub chunk_size: usize,
}

/// What the sender helper reports after a transfer.
#[derive(Debug, Clone)]
pub struct RdmaSendReport {
    pub protocol_version: u16,
    pub bytes_sent: u64,
    pub chunks_sent: u64,
}

/// What the receiver reports after a transfer.
#[derive(Debug, Clone)]
pub struct RdmaReceiveReport {
    pub bytes_received: u64,
    pub chunks_received: u64,
}

/// The request for sending `source_path` to `destination_addr` (an IPv4
/// address as four octets) and `destination_port` under session `token`:
/// the address in dotted-quad text, the token as 32 lower-case hexadecimal
/// digits.
pub fn new_send_request(
    source_path: String,
    destination_addr: [u8; 4],
    destination_port: u16,
    token: [u8; 16],
    file_size: u64,
    chunk_size: usize,
) -> (r: RdmaSendRequest)
    ensures
        r.protocol_version == 1,
        r.source_path@ == source_path@,
        r.destination_addr@ == ipv4_text(destination_addr@),
        r.destination_port == destination_port,
        r.token_hex@ == hex_bytes_text(token@),
        r.file_size == file_size,
        r.chunk_size == chunk_size,
{
    RdmaSendRequest {
        protocol_version: PROTOCOL_VERSION,
        source_path,
        destination_addr: format_ipv4(&destination_addr),
        destination_port,
        token_hex: hex_encode(&token),
        file_size,
        chunk_size,
    }
}

/// An IP address as plain values: four octets, or eight 16-bit groups.
#[derive(Debug, Clone, Copy, PartialEq, Eq)]
pub enum IpAddress {
    V4([u8; 4]),
    V6([u16; 8]),
}

/// The local IPv4 address to bind the receiver to: a configured address
/// must be a specific IPv4 address; with none configured, `Ok(None)` says
/// that the address is to be inferred from the route to the remote host.
pub fn bind_addr_choice(addr: Option<IpAddress>) -> (r: Result<Option<[u8; 4]>, RdmaError>)
    ensures
        match addr {
            None => r == Ok::<Option<[u8; 4]>, RdmaError>(None),
            Some(IpAddress::V4(o)) => if o@ == seq![0u8, 0u8, 0u8, 0u8] {
                r == Err::<Option<[u8; 4]>, RdmaError>(RdmaError::BindAddrUnspecified)
            } else {
                r == Ok::<Option<[u8; 4]>, RdmaError>(Some(o))
            },
            Some(IpAddress::V6(_)) => r == Err::<Option<[u8; 4]>, RdmaError>(
                RdmaError::BindAddrNotIpv4,
            ),
        },
{
    match addr {
        None => Ok(None),
        Some(IpAddress::V4(o)) => {
            if o[0] == 0 && o[1] == 0 && o[2] == 0 && o[3] == 0 {
                assert(o@ =~= seq![0u8, 0u8, 0u8, 0u8]);
                Err(RdmaError::BindAddrUnspecified)
            } else {
                Ok(Some(o))
            }
        },
        Some(IpAddress::V6(_)) => Err(RdmaError::BindAddrNotIpv4),
    }
}

/// The token used when no random source can be read: the clock's
/// nanoseconds mixed with the process id rotated left by 17 bits, as 16
/// big-endian bytes.
pub fn fallback_token(nanos: u128, pid: u32) -> (t: [u8; 16])
    ensures
        t@ == be_bytes((nanos ^ ((pid as u128) << 17u128)) as int, 16),
{
    let mixed = nanos ^ ((pid as u128) << 17u128);
    let mut t = [0u8; 16];
    let mut rest = mixed;
    let mut i: usize = 16;
    while i > 0
        invariant
            i <= 16,
            forall|k: int| i <= k < 16 ==> t@[k] == be_bytes(mixed as int, 16)[k],
            rest as int == mixed as int / crate::delta::checksum::pow256((16 - i) as nat),
        decreases i,
    {
        i = i - 1;
        let ghost before = t@;
        t[i] = (rest % 256) as u8;
        proof {
            lemma_be_bytes_digit(mixed as int, 16, i as nat);
        }
        assert forall|k: int| i <= k < 16 implies t@[k] == be_bytes(mixed as int, 16)[k] by {
            if k > i {
                assert(t@[k] == before[k]);
            }
        }
        proof {
            crate::delta::checksum::lemma_pow256_pos((15 - i) as nat);
            vstd::arithmetic::div_mod::lemma_div_denominator(
                mixed as int,
                crate::delta::checksum::pow256((15 - i) as nat),
                256,
            );
            assert(crate::delta::checksum::pow256((16 - i) as nat) == 256
                * crate::delta::checksum::pow256((15 - i) as nat));
            vstd::arithmetic::mul::lemma_mul_is_commutative(
                crate::delta::checksum::pow256((15 - i) as nat),
                256,
            );
        }
        rest = rest / 256;
    }
    proof {
        crate::rdma::packet::lemma_be_bytes_len(mixed as int, 16);
    }
    assert(t@ =~= be_bytes(mixed as int, 16));
    t
}

/// Digit `i` (from the front) of the `n` big-endian bytes of `v`.
proof fn lemma_be_bytes_digit(v: int, n: nat, i: nat)
    requires
        v >= 0,
        i < n,
    ensures
        be_bytes(v, n)[i as int] == ((v / crate::delta::checksum::pow256(
            (n - 1 - i) as nat,
        )) % 256) as u8,
    decreases n,
{
    crate::rdma::packet::lemma_be_bytes_len(v / 256, (n - 1) as nat);
    if i == n - 1 {
        assert(v / 1 == v);
    } else {
        lemma_be_bytes_digit(v / 256, (n - 1) as nat, i);
        crate::delta::checksum::lemma_pow256_pos((n - 2 - i) as nat);
        vstd::arithmetic::div_mod::lemma_div_denominator(
            v,
            256,
            crate::delta::checksum::pow256((n - 2 - i) as nat),
        );
        assert(crate::delta::checksum::pow256((n - 1 - i) as nat) == 256
            * crate::delta::checksum::pow256((n - 2 - i) as nat));
    }
}

} // verus!
