//! The rules of an RDMA transfer: what the sender checks and sends, and what
//! the receiver accepts, writes or refuses, packet by packet.
use vstd::prelude::*;

verus! {

use vstd::string::StringSliceAdditionalSpecFns;
use vstd::utf8::encode_utf8;
use crate::delta::checksum::be_value;
use crate::rdma::ipv4::{ipv4_text, ipv4_text_value, parse_ipv4, lemma_ipv4_text_round_trip};
use crate::rdma::packet::{
    declared_payload_len,
    encode_packet,
    encoded_packet,
    header_error,
    hex_bytes_text,
    hex_decode_16,
    lemma_packet_round_trip,
    lemma_token_text_round_trip,
    packet_error,
    packet_payload_len,
    token_text_value,
    DecodedPacket,
    RdmaError,
    KIND_DATA,
    KIND_DONE,
    PROTOCOL_VERSION,
};
use crate::rdma::{RdmaReceiveReport, RdmaSendReport, RdmaSendRequest};

/// What the receiver does with a packet it accepted.
#[derive(Debug, Clone, Copy, PartialEq, Eq, Structural)]
pub enum PacketAction {
    /// Write the payload at the end of the data so far.
    Write,
    /// Drop the packet (another session's, after data of this one arrived on
    /// this connection) and read the next one.
    Skip,
    /// Drop the connection (another session's, before any data of this one
    /// arrived on it) and wait for the next one.
    Reconnect,
    /// The transfer is over.
    Done,
}

/// The receiver's state as a mathematical value.
pub struct ReceiveState {
    pub token: Seq<u8>,
    pub expected_size: u64,
    pub chunk_size: usize,
    pub received: u64,
    pub chunks: u64,
    pub stream_start: u64,
    pub done: bool,
}

/// What the receiver does with a packet of kind `kind`, session `token`, at
/// file offset `offset`, with `payload_len` payload bytes: a packet of
/// another session is dropped; a data packet must continue the data so far
/// and stay within the expected size; a done packet must sit where the data
/// ends; any other kind is refused.
pub open spec fn accept_step(
    s: ReceiveState,
    kind: u8,
    token: Seq<u8>,
    offset: u64,
    payload_len: int,
) -> Result<(ReceiveState, PacketAction), RdmaError> {
    if token != s.token {
        if s.received == s.stream_start {
            Ok((s, PacketAction::Reconnect))
        } else {
            Ok((s, PacketAction::Skip))
        }
    } else if kind == 1 {
        if offset != s.received {
            Err(RdmaError::OutOfOrder { expected: s.received, got: offset })
        } else if s.received + payload_len > u64::MAX {
            Err(RdmaError::ByteCountOverflow)
        } else if s.received + payload_len > s.expected_size {
            Err(
                RdmaError::ExceedsExpectedSize {
                    next: (s.received + payload_len) as u64,
                    expected: s.expected_size,
                },
            )
        } else {
            Ok(
                (
                    ReceiveState {
                        received: (s.received + payload_len) as u64,
                        chunks: (s.chunks + 1) as u64,
                        ..s
                    },
                    PacketAction::Write,
                ),
            )
        }
    } else if kind == 2 {
        if offset != s.received {
            Err(RdmaError::DoneOffsetMismatch { expected: s.received, got: offset })
        } else {
            Ok((ReceiveState { done: true, ..s }, PacketAction::Done))
        }
    } else {
        Err(RdmaError::UnknownKind(kind))
    }
}

/// The receiver takes the packets of its session strictly in order. A data
/// or done packet with the session's token whose offset is not the number of
/// bytes received so far is refused, naming that number and the offset. A
/// packet that is taken sits exactly where the data so far ends; a data
/// packet taken is written, moves that end by exactly its payload length and
/// never past the expected size; a done packet taken ends the transfer
/// without moving it. A data packet of the session that continues the data
/// and stays within the expected size is taken, and so is a done packet
/// where the data ends; a packet of another kind is refused. A packet of
/// another session leaves the state as it was.
pub proof fn lemma_packets_taken_in_order(
    s: ReceiveState,
    kind: u8,
    token: Seq<u8>,
    offset: u64,
    payload_len: int,
)
    requires
        payload_len >= 0,
    ensures
        token == s.token && kind == KIND_DATA && offset != s.received ==> accept_step(
            s,
            kind,
            token,
            offset,
            payload_len,
        ) == Err::<(ReceiveState, PacketAction), RdmaError>(
            RdmaError::OutOfOrder { expected: s.received, got: offset },
        ),
        token == s.token && kind == KIND_DONE && offset != s.received ==> accept_step(
            s,
            kind,
            token,
            offset,
            payload_len,
        ) == Err::<(ReceiveState, PacketAction), RdmaError>(
            RdmaError::DoneOffsetMismatch { expected: s.received, got: offset },
        ),
        token != s.token ==> (accept_step(s, kind, token, offset, payload_len) matches Ok((t, a))
            && t == s && (a == PacketAction::Skip || a == PacketAction::Reconnect)),
        token == s.token ==> match accept_step(s, kind, token, offset, payload_len) {
            Ok((t, a)) => {
                &&& offset == s.received
                &&& t.token == s.token
                &&& t.expected_size == s.expected_size
                &&& t.chunk_size == s.chunk_size
                &&& t.stream_start == s.stream_start
                &&& (kind == KIND_DATA ==> a == PacketAction::Write && t.received == s.received
                    + payload_len && t.received <= s.expected_size && t.done == s.done && (s.chunks
                    < u64::MAX ==> t.chunks == s.chunks + 1))
                &&& (kind == KIND_DONE ==> a == PacketAction::Done && t.received == s.received
                    && t.chunks == s.chunks && t.done)
                &&& (kind == KIND_DATA || kind == KIND_DONE)
            },
            Err(_) => true,
        },
        token == s.token && kind == KIND_DATA && offset == s.received && s.received + payload_len
            <= s.expected_size ==> accept_step(s, kind, token, offset, payload_len) is Ok,
        token == s.token && kind == KIND_DONE && offset == s.received ==> accept_step(
            s,
            kind,
            token,
            offset,
            payload_len,
        ) is Ok,
        token == s.token && kind != KIND_DATA && kind != KIND_DONE ==> accept_step(
            s,
            kind,
            token,
            offset,
            payload_len,
        ) == Err::<(ReceiveState, PacketAction), RdmaError>(RdmaError::UnknownKind(kind)),
{
}

/// The receiving side of a transfer: the session token, the expected size
/// and the largest payload it takes, and how far the data has come.
pub struct ReceiveSession {
    token: [u8; 16],
    expected_size: u64,
    chunk_size: usize,
    received: u64,
    chunks: u64,
    stream_start: u64,
    done: bool,
}

impl View for ReceiveSession {
    type V = ReceiveState;

    closed spec fn view(&self) -> ReceiveState {
        ReceiveState {
            token: self.token@,
            expected_size: self.expected_size,
            chunk_size: self.chunk_size,
            received: self.received,
            chunks: self.chunks,
            stream_start: self.stream_start,
            done: self.done,
        }
    }
}

fn tokens_equal(a: &[u8; 16], b: &[u8; 16]) -> (r: bool)
    ensures
        r == (a@ == b@),
{
    let mut i: usize = 0;
    while i < 16
        invariant
            i <= 16,
            forall|k: int| 0 <= k < i ==> a@[k] == b@[k],
        decreases 16 - i,
    {
        if a[i] != b[i] {
            return false;
        }
        i = i + 1;
    }
    assert(a@ =~= b@);
    true
}

impl ReceiveSession {
    /// A session for `token` that expects `expected_size` bytes in payloads
    /// of at most `chunk_size` bytes (at least one).
    pub fn new(token: [u8; 16], expected_size: u64, chunk_size: usize) -> (r: Self)
        ensures
            r@ == (ReceiveState {
                token: token@,
                expected_size,
                chunk_size: if chunk_size < 1 {
                    1
                } else {
                    chunk_size
                },
                received: 0,
                chunks: 0,
                stream_start: 0,
                done: false,
            }),
    {
        ReceiveSession {
            token,
            expected_size,
            chunk_size: if chunk_size < 1 {
                1
            } else {
                chunk_size
            },
            received: 0,
            chunks: 0,
            stream_start: 0,
            done: false,
        }
    }

    /// The session token.
    pub fn token(&self) -> (t: [u8; 16])
        ensures
            t@ == self@.token,
    {
        self.token
    }

    /// The largest payload the session takes.
    pub fn chunk_size(&self) -> (n: usize)
        ensures
            n == self@.chunk_size,
    {
        self.chunk_size
    }

    /// Whether the done packet has arrived.
    pub fn is_done(&self) -> (b: bool)
        ensures
            b == self@.done,
    {
        self.done
    }

    /// The number of data bytes accepted so far.
    pub fn received(&self) -> (n: u64)
        ensures
            n == self@.received,
    {
        self.received
    }

    /// The number of data packets accepted so far.
    pub fn chunks(&self) -> (n: u64)
        ensures
            n == self@.chunks,
    {
        self.chunks
    }

    /// A new connection begins: remembers how much data had arrived before it.
    pub fn begin_stream(&mut self)
        ensures
            final(self)@ == (ReceiveState { stream_start: old(self)@.received, ..old(self)@ }),
    {
        self.stream_start = self.received;
    }

    /// The payload length that a received header announces, once the header
    /// has passed its checks and the payload fits in the session's chunk size.
    pub fn check_header(&self, header: &[u8]) -> (r: Result<usize, RdmaError>)
        ensures
            match header_error(header@) {
                Some(e) => r == Err::<usize, RdmaError>(e),
                None => if declared_payload_len(header@) > self@.chunk_size {
                    r == Err::<usize, RdmaError>(
                        RdmaError::PayloadExceedsChunk {
                            payload_len: declared_payload_len(header@) as u64,
                            chunk_size: self@.chunk_size as u64,
                        },
                    )
                } else {
                    r == Ok::<usize, RdmaError>(declared_payload_len(header@) as usize)
                },
            },
    {
        let n = packet_payload_len(header)?;
        if n > self.chunk_size {
            return Err(
                RdmaError::PayloadExceedsChunk {
                    payload_len: n as u64,
                    chunk_size: self.chunk_size as u64,
                },
            );
        }
        Ok(n)
    }

    /// Takes in a decoded packet and says what to do with it, as
    /// `accept_step` describes; a refused packet leaves the session as it was.
    pub fn accept(&mut self, packet: &DecodedPacket) -> (r: Result<PacketAction, RdmaError>)
        requires
            old(self)@.chunks < u64::MAX,
        ensures
            match r {
                Ok(a) => accept_step(
                    old(self)@,
                    packet.kind,
                    packet.token@,
                    packet.offset,
                    packet.payload@.len() as int,
                ) == Ok::<(ReceiveState, PacketAction), RdmaError>((final(self)@, a)),
                Err(e) => accept_step(
                    old(self)@,
                    packet.kind,
                    packet.token@,
                    packet.offset,
                    packet.payload@.len() as int,
                ) == Err::<(ReceiveState, PacketAction), RdmaError>(e)
                    && final(self)@ == old(self)@,
            },
    {
        if !tokens_equal(&packet.token, &self.token) {
            if self.received == self.stream_start {
                return Ok(PacketAction::Reconnect);
            }
            return Ok(PacketAction::Skip);
        }
        if packet.kind == KIND_DATA {
            if packet.offset != self.received {
                return Err(RdmaError::OutOfOrder { expected: self.received, got: packet.offset });
            }
            let len = packet.payload.len();
            if len as u64 > u64::MAX - self.received {
                return Err(RdmaError::ByteCountOverflow);
            }
            let next = self.received + len as u64;
            if next > self.expected_size {
                return Err(
                    RdmaError::ExceedsExpectedSize { next, expected: self.expected_size },
                );
            }
            self.received = next;
            self.chunks = self.chunks + 1;
            return Ok(PacketAction::Write);
        }
        if packet.kind == KIND_DONE {
            if packet.offset != self.received {
                return Err(
                    RdmaError::DoneOffsetMismatch { expected: self.received, got: packet.offset },
                );
            }
            self.done = true;
            return Ok(PacketAction::Done);
        }
        Err(RdmaError::UnknownKind(packet.kind))
    }

    /// The report of a finished transfer: refused unless exactly the
    /// expected number of bytes arrived.
    pub fn finish(&self) -> (r: Result<RdmaReceiveReport, RdmaError>)
        ensures
            match r {
                Ok(rep) => self@.received == self@.expected_size && rep.bytes_received
                    == self@.received && rep.chunks_received == self@.chunks,
                Err(e) => self@.received != self@.expected_size && e == RdmaError::Incomplete {
                    expected: self@.expected_size,
                    received: self@.received,
                },
            },
    {
        if self.received != self.expected_size {
            return Err(
                RdmaError::Incomplete { expected: self.expected_size, received: self.received },
            );
        }
        Ok(RdmaReceiveReport { bytes_received: self.received, chunks_received: self.chunks })
    }
}

/// What the sender helper will do for a request: send under the token to
/// the address and port, reading the source in chunks of this size.
pub struct SendPlan {
    pub token: [u8; 16],
    pub destination: [u8; 4],
    pub port: u16,
    pub chunk_size: usize,
}

/// How the sender helper answers a request, checked in this order: the
/// helper protocol version, the token text, the destination address; the
/// plan's parts are the token, the address's octets, the port and the chunk
/// size (at least one).
pub open spec fn send_plan_for(request: RdmaSendRequest) -> Result<
    (Seq<u8>, Seq<u8>, u16, usize),
    RdmaError,
> {
    if request.protocol_version != 1 {
        Err(RdmaError::UnsupportedHelperVersion(request.protocol_version))
    } else {
        match token_text_value(encode_utf8(request.token_hex@)) {
            None => Err(
                if encode_utf8(request.token_hex@).len() != 32 {
                    RdmaError::TokenLength
                } else {
                    RdmaError::TokenDigit
                },
            ),
            Some(t) => match ipv4_text_value(encode_utf8(request.destination_addr@)) {
                None => Err(RdmaError::BadDestinationAddress),
                Some(a) => Ok(
                    (
                        t,
                        a,
                        request.destination_port,
                        if request.chunk_size < 1 {
                            1
                        } else {
                            request.chunk_size
                        },
                    ),
                ),
            },
        }
    }
}

/// The sender helper's checks of a request, as `send_plan_for` describes.
pub fn plan_send(request: &RdmaSendRequest) -> (r: Result<SendPlan, RdmaError>)
    ensures
        match send_plan_for(*request) {
            Ok((t, a, port, chunk)) => r matches Ok(p) && p.token@ == t && p.destination@ == a
                && p.port == port && p.chunk_size == chunk,
            Err(e) => r matches Err(e2) && e2 == e,
        },
{
    if request.protocol_version != PROTOCOL_VERSION {
        return Err(RdmaError::UnsupportedHelperVersion(request.protocol_version));
    }
    let token = hex_decode_16(request.token_hex.as_str())?;
    let destination = match parse_ipv4(request.destination_addr.as_str()) {
        Some(a) => a,
        None => {
            return Err(RdmaError::BadDestinationAddress);
        },
    };
    let chunk_size = if request.chunk_size < 1 {
        1
    } else {
        request.chunk_size
    };
    Ok(SendPlan { token, destination, port: request.destination_port, chunk_size })
}

/// A request built by `new_send_request` passes the sender helper's checks,
/// and the helper sends under the same token to the same address and port.
pub proof fn lemma_new_request_is_accepted(request: RdmaSendRequest, addr: Seq<u8>, token: Seq<u8>)
    requires
        addr.len() == 4,
        token.len() == 16,
        request.protocol_version == 1,
        request.destination_addr@ == ipv4_text(addr),
        request.token_hex@ == hex_bytes_text(token),
    ensures
        send_plan_for(request) == Ok::<(Seq<u8>, Seq<u8>, u16, usize), RdmaError>(
            (
                token,
                addr,
                request.destination_port,
                if request.chunk_size < 1 {
                    1
                } else {
                    request.chunk_size
                },
            ),
        ),
{
    lemma_token_text_round_trip(token);
    lemma_ipv4_text_round_trip(addr);
}

/// The sender's state as a mathematical value.
pub struct SendState {
    pub token: Seq<u8>,
    pub file_size: u64,
    pub offset: u64,
    pub chunks: u64,
}

/// The sending side of a transfer: the token, the size to send, and how
/// far the data has come.
pub struct SendProgress {
    token: [u8; 16],
    file_size: u64,
    offset: u64,
    chunks: u64,
}

impl View for SendProgress {
    type V = SendState;

    closed spec fn view(&self) -> SendState {
        SendState {
            token: self.token@,
            file_size: self.file_size,
            offset: self.offset,
            chunks: self.chunks,
        }
    }
}

impl SendProgress {
    /// Starts sending a file of `actual_size` bytes under the plan; refused
    /// when the file's size is not the requested size.
    pub fn start(plan: &SendPlan, requested_size: u64, actual_size: u64) -> (r: Result<
        SendProgress,
        RdmaError,
    >)
        ensures
            match r {
                Ok(p) => actual_size == requested_size && p@ == (SendState {
                    token: plan.token@,
                    file_size: requested_size,
                    offset: 0,
                    chunks: 0,
                }),
                Err(e) => actual_size != requested_size && e == RdmaError::SourceSizeChanged {
                    expected: requested_size,
                    got: actual_size,
                },
            },
    {
        if actual_size != requested_size {
            return Err(RdmaError::SourceSizeChanged { expected: requested_size, got: actual_size });
        }
        Ok(SendProgress { token: plan.token, file_size: requested_size, offset: 0, chunks: 0 })
    }

    /// The number of bytes sent so far.
    pub fn offset(&self) -> (n: u64)
        ensures
            n == self@.offset,
    {
        self.offset
    }

    /// The number of data packets sent so far.
    pub fn chunks(&self) -> (n: u64)
        ensures
            n == self@.chunks,
    {
        self.chunks
    }

    /// The data packet for the next chunk read from the source, which then
    /// counts as sent.
    pub fn data_packet(&mut self, chunk: &[u8]) -> (r: Result<Vec<u8>, RdmaError>)
        requires
            old(self)@.offset + chunk@.len() <= u64::MAX,
            old(self)@.chunks < u64::MAX,
        ensures
            match r {
                Ok(p) => p@ == encoded_packet(1, old(self)@.token, old(self)@.offset, chunk@)
                    && final(self)@ == (SendState {
                    offset: (old(self)@.offset + chunk@.len()) as u64,
                    chunks: (old(self)@.chunks + 1) as u64,
                    ..old(self)@
                }),
                Err(e) => chunk@.len() > u32::MAX && e == RdmaError::PayloadTooLarge
                    && final(self)@ == old(self)@,
            },
    {
        let packet = encode_packet(KIND_DATA, &self.token, self.offset, chunk)?;
        self.offset = self.offset + chunk.len() as u64;
        self.chunks = self.chunks + 1;
        Ok(packet)
    }

    /// The done packet and the report, once the whole source has been read;
    /// refused when another number of bytes was read than requested.
    pub fn finish(&self) -> (r: Result<(Vec<u8>, RdmaSendReport), RdmaError>)
        ensures
            match r {
                Ok((p, rep)) => self@.offset == self@.file_size && p@ == encoded_packet(
                    2,
                    self@.token,
                    self@.offset,
                    Seq::empty(),
                ) && rep.protocol_version == 1 && rep.bytes_sent == self@.offset
                    && rep.chunks_sent == self@.chunks,
                Err(e) => self@.offset != self@.file_size && e == RdmaError::ReadLengthChanged {
                    expected: self@.file_size,
                    read: self@.offset,
                },
            },
    {
        if self.offset != self.file_size {
            return Err(RdmaError::ReadLengthChanged { expected: self.file_size, read: self.offset });
        }
        let empty: Vec<u8> = Vec::new();
        let done = encode_packet(KIND_DONE, &self.token, self.offset, empty.as_slice())?;
        Ok(
            (
                done,
                RdmaSendReport {
                    protocol_version: PROTOCOL_VERSION,
                    bytes_sent: self.offset,
                    chunks_sent: self.chunks,
                },
            ),
        )
    }
}

/// The number of bytes in a sequence of chunks.
pub open spec fn chunks_total(cs: Seq<Seq<u8>>) -> int
    decreases cs.len(),
{
    if cs.len() == 0 {
        0
    } else {
        chunks_total(cs.drop_last()) + cs.last().len()
    }
}

/// The fields a receiver reads from a packet: kind, token, offset, payload
/// length.
pub open spec fn packet_fields(b: Seq<u8>) -> (u8, Seq<u8>, u64, int) {
    (b[10], b.subrange(12, 28), be_value(b.subrange(28, 36)) as u64, b.len() - 40)
}

/// The receiver's state after taking in, in order, the data packets that a
/// sender under `token` sends for the chunks `cs` (each at the offset where
/// the chunks before it end), or the first refusal.
pub open spec fn receive_chunks(s: ReceiveState, token: Seq<u8>, cs: Seq<Seq<u8>>) -> Result<
    ReceiveState,
    RdmaError,
>
    decreases cs.len(),
{
    if cs.len() == 0 {
        Ok(s)
    } else {
        match receive_chunks(s, token, cs.drop_last()) {
            Err(e) => Err(e),
            Ok(t) => {
                let f = packet_fields(
                    encoded_packet(1, token, chunks_total(cs.drop_last()) as u64, cs.last()),
                );
                match accept_step(t, f.0, f.1, f.2, f.3) {
                    Ok((u, _)) => Ok(u),
                    Err(e) => Err(e),
                }
            },
        }
    }
}

/// A data packet that the sender builds for the next chunk passes the
/// receiver's header and packet checks and is written, when its token is
/// the receiver's, it continues where the data so far ends, and it fits in
/// the chunk size and the expected size.
pub proof fn lemma_data_packet_accepted(s: ReceiveState, token: Seq<u8>, offset: u64, payload: Seq<u8>)
    requires
        token.len() == 16,
        s.token == token,
        s.received == offset,
        offset + payload.len() <= s.expected_size,
        payload.len() <= s.chunk_size,
        payload.len() <= u32::MAX,
    ensures
        ({
            let b = encoded_packet(1, token, offset, payload);
            let f = packet_fields(b);
            &&& header_error(b.subrange(0, 40)) is None
            &&& declared_payload_len(b.subrange(0, 40)) == payload.len()
            &&& packet_error(b) is None
            &&& accept_step(s, f.0, f.1, f.2, f.3) == Ok::<(ReceiveState, PacketAction), RdmaError>(
                (
                    ReceiveState {
                        received: (offset + payload.len()) as u64,
                        chunks: (s.chunks + 1) as u64,
                        ..s
                    },
                    PacketAction::Write,
                ),
            )
        }),
{
    lemma_packet_round_trip(1, token, offset, payload);
    let b = encoded_packet(1, token, offset, payload);
    let h = b.subrange(0, 40);
    assert(h.subrange(0, 8) =~= b.subrange(0, 8));
    assert(h.subrange(8, 10) =~= b.subrange(8, 10));
    assert(h.subrange(36, 40) =~= b.subrange(36, 40));
}

/// The done packet that the sender builds passes the receiver's checks and
/// ends the transfer, when its token is the receiver's and it sits where the
/// data so far ends.
pub proof fn lemma_done_packet_accepted(s: ReceiveState, token: Seq<u8>, offset: u64)
    requires
        token.len() == 16,
        s.token == token,
        s.received == offset,
    ensures
        ({
            let b = encoded_packet(2, token, offset, Seq::empty());
            let f = packet_fields(b);
            &&& packet_error(b) is None
            &&& accept_step(s, f.0, f.1, f.2, f.3) == Ok::<(ReceiveState, PacketAction), RdmaError>(
                (ReceiveState { done: true, ..s }, PacketAction::Done),
            )
        }),
{
    lemma_packet_round_trip(2, token, offset, Seq::empty());
}

/// What the sender sends, the receiver takes in: for chunks that fit the
/// receiver's chunk size and add up to no more than the expected size, a
/// receiver with the sender's token that starts empty writes every data
/// packet, ends up with all their bytes, and then accepts the done packet.
pub proof fn lemma_transfer_delivers(s: ReceiveState, token: Seq<u8>, cs: Seq<Seq<u8>>)
    requires
        token.len() == 16,
        s.token == token,
        s.received == 0,
        s.chunks == 0,
        chunks_total(cs) <= s.expected_size,
        cs.len() < u64::MAX,
        forall|i: int|
            0 <= i < cs.len() ==> (#[trigger] cs[i]).len() <= s.chunk_size && cs[i].len()
                <= u32::MAX,
    ensures
        receive_chunks(s, token, cs) == Ok::<ReceiveState, RdmaError>(
            ReceiveState { received: chunks_total(cs) as u64, chunks: cs.len() as u64, ..s },
        ),
        ({
            let t = ReceiveState { received: chunks_total(cs) as u64, chunks: cs.len() as u64, ..s };
            let f = packet_fields(encoded_packet(2, token, chunks_total(cs) as u64, Seq::empty()));
            accept_step(t, f.0, f.1, f.2, f.3) == Ok::<(ReceiveState, PacketAction), RdmaError>(
                (ReceiveState { done: true, ..t }, PacketAction::Done),
            )
        }),
    decreases cs.len(),
{
    lemma_chunks_total_nonneg(cs);
    if cs.len() > 0 {
        let p = cs.drop_last();
        assert forall|i: int|
            0 <= i < p.len() implies (#[trigger] p[i]).len() <= s.chunk_size && p[i].len()
                <= u32::MAX by {
            assert(p[i] == cs[i]);
        }
        lemma_chunks_total_nonneg(p);
        lemma_transfer_delivers(s, token, p);
        let t = ReceiveState { received: chunks_total(p) as u64, chunks: p.len() as u64, ..s };
        assert(cs.last() == cs[cs.len() - 1]);
        lemma_data_packet_accepted(t, token, chunks_total(p) as u64, cs.last());
    }
    let t = ReceiveState { received: chunks_total(cs) as u64, chunks: cs.len() as u64, ..s };
    lemma_done_packet_accepted(t, token, chunks_total(cs) as u64);
}

proof fn lemma_chunks_total_nonneg(cs: Seq<Seq<u8>>)
    ensures
        chunks_total(cs) >= 0,
    decreases cs.len(),
{
    if cs.len() > 0 {
        lemma_chunks_total_nonneg(cs.drop_last());
    }
}

} // verus!
