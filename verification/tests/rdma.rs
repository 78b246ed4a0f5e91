use parsync::rdma::ipv4::{format_ipv4, parse_ipv4};
use parsync::rdma::transfer::{plan_send, PacketAction, ReceiveSession, SendProgress};
use parsync::rdma::{
    bind_addr_choice, decode_packet, encode_packet, fallback_token, hex_decode_16, hex_encode,
    hex_nibble, new_send_request, packet_payload_len, IpAddress, RdmaCopyResult, RdmaError,
    RdmaMode, HEADER_LEN, KIND_DATA, KIND_DONE,
};

#[test]
fn rdma_mode_parses_env_values() {
    assert_eq!("auto".parse::<RdmaMode>().unwrap(), RdmaMode::Auto);
    assert_eq!("true".parse::<RdmaMode>().unwrap(), RdmaMode::Auto);
    assert_eq!("off".parse::<RdmaMode>().unwrap(), RdmaMode::Off);
    assert_eq!("require".parse::<RdmaMode>().unwrap(), RdmaMode::Require);
    assert!("maybe".parse::<RdmaMode>().is_err());
}

#[test]
fn rdma_mode_trims_and_ignores_case() {
    assert_eq!(RdmaMode::parse_setting("  TRUE \t"), Ok(RdmaMode::Auto));
    assert_eq!(RdmaMode::parse_setting("\u{3000}Disabled\n"), Ok(RdmaMode::Off));
    assert_eq!(RdmaMode::parse_setting("Required"), Ok(RdmaMode::Require));
    assert_eq!(RdmaMode::parse_setting("1"), Ok(RdmaMode::Auto));
    assert_eq!(RdmaMode::parse_setting("0"), Ok(RdmaMode::Off));
    assert_eq!(RdmaMode::parse_setting("force"), Ok(RdmaMode::Require));
    assert_eq!(
        RdmaMode::parse_setting(" Maybe "),
        Err("invalid RDMA mode 'maybe' (expected auto, off, or require)".to_string())
    );
    assert_eq!(
        RdmaMode::parse_setting(""),
        Err("invalid RDMA mode '' (expected auto, off, or require)".to_string())
    );
}

#[test]
fn rdma_mode_names_and_default() {
    assert_eq!(RdmaMode::default(), RdmaMode::Auto);
    assert_eq!(RdmaMode::Auto.name(), "auto");
    assert_eq!(RdmaMode::Off.name(), "off");
    assert_eq!(RdmaMode::Require.name(), "require");
}

#[test]
fn packet_round_trips() {
    let token = [7_u8; 16];
    let encoded = encode_packet(KIND_DATA, &token, 42, b"payload").expect("encode");
    let decoded = decode_packet(&encoded).expect("decode");
    assert_eq!(decoded.kind, KIND_DATA);
    assert_eq!(decoded.token, token);
    assert_eq!(decoded.offset, 42);
    assert_eq!(decoded.payload, b"payload");
}

#[test]
fn packet_layout_is_big_endian() {
    let token: [u8; 16] = core::array::from_fn(|i| i as u8);
    let p = encode_packet(KIND_DONE, &token, 0x0102030405060708, b"").unwrap();
    assert_eq!(p.len(), HEADER_LEN);
    assert_eq!(&p[..8], b"PRDMA001");
    assert_eq!(&p[8..10], &[0, 1]);
    assert_eq!(p[10], KIND_DONE);
    assert_eq!(p[11], 0);
    assert_eq!(&p[12..28], &token);
    assert_eq!(&p[28..36], &[1, 2, 3, 4, 5, 6, 7, 8]);
    assert_eq!(&p[36..40], &[0, 0, 0, 0]);
    assert_eq!(packet_payload_len(&p[..40]), Ok(0));
}

#[test]
fn packet_errors_are_detected_in_order() {
    let token = [1_u8; 16];
    let good = encode_packet(KIND_DATA, &token, 0, b"abc").unwrap();
    assert_eq!(packet_payload_len(&good[..40]), Ok(3));
    assert!(matches!(decode_packet(&good[..39]), Err(RdmaError::ShortHeader)));
    let mut bad_magic = good.clone();
    bad_magic[0] = b'X';
    assert!(matches!(decode_packet(&bad_magic), Err(RdmaError::BadMagic)));
    let mut bad_version = good.clone();
    bad_version[9] = 2;
    assert!(matches!(
        decode_packet(&bad_version),
        Err(RdmaError::UnsupportedPacketVersion(2))
    ));
    assert_eq!(packet_payload_len(&bad_version[..40]), Err(RdmaError::UnsupportedPacketVersion(2)));
    let mut short_payload = good.clone();
    short_payload.pop();
    assert!(matches!(decode_packet(&short_payload), Err(RdmaError::LengthMismatch)));
}

#[test]
fn token_hex_round_trips() {
    let token: [u8; 16] = core::array::from_fn(|i| (i * 17) as u8);
    let text = hex_encode(&token);
    assert_eq!(text, "00112233445566778899aabbccddeeff");
    assert_eq!(hex_decode_16(&text), Ok(token));
    assert_eq!(hex_decode_16("00112233445566778899AABBCCDDEEFF"), Ok(token));
    assert_eq!(hex_decode_16("0011"), Err(RdmaError::TokenLength));
    assert_eq!(
        hex_decode_16("0011223344556677889900aabbccddeg"),
        Err(RdmaError::TokenDigit)
    );
    assert_eq!(hex_nibble(b'a'), Ok(10));
    assert_eq!(hex_nibble(b'F'), Ok(15));
    assert_eq!(hex_nibble(b'z'), Err(RdmaError::TokenDigit));
}

#[test]
fn ipv4_text_reads_dotted_quads() {
    let cases: [(&str, Option<[u8; 4]>); 12] = [
        ("1.2.3.4", Some([1, 2, 3, 4])),
        ("255.255.255.255", Some([255, 255, 255, 255])),
        ("0.0.0.0", Some([0, 0, 0, 0])),
        ("010.0.0.1", None),
        ("256.0.0.1", None),
        ("1.2.3", None),
        ("1.2.3.4.5", None),
        ("1..3.4", None),
        ("1.2.3.4 ", None),
        ("+1.2.3.4", None),
        ("1234.1.1.1", None),
        ("", None),
    ];
    for (text, expected) in cases {
        assert_eq!(parse_ipv4(text), expected, "case {text:?}");
    }
}

#[test]
fn ipv4_text_is_written_without_leading_zeros() {
    let cases: [([u8; 4], &str); 3] = [
        ([10, 0, 0, 12], "10.0.0.12"),
        ([192, 168, 1, 255], "192.168.1.255"),
        ([0, 9, 99, 100], "0.9.99.100"),
    ];
    for (o, expected) in cases {
        let text = format_ipv4(&o);
        assert_eq!(text, expected);
        assert_eq!(parse_ipv4(&text), Some(o));
    }
}

#[test]
fn send_request_is_accepted_by_the_sender() {
    let token = [0xab_u8; 16];
    let req = new_send_request("/data/f".to_string(), [10, 1, 2, 3], 4000, token, 100, 0);
    assert_eq!(req.protocol_version, 1);
    assert_eq!(req.destination_addr, "10.1.2.3");
    assert_eq!(req.token_hex, "abababababababababababababababab");
    let plan = plan_send(&req).unwrap();
    assert_eq!(plan.token, token);
    assert_eq!(plan.destination, [10, 1, 2, 3]);
    assert_eq!(plan.port, 4000);
    assert_eq!(plan.chunk_size, 1);
}

#[test]
fn sender_refuses_bad_requests() {
    let mut req = new_send_request("/f".to_string(), [1, 2, 3, 4], 1, [0; 16], 0, 8);
    req.protocol_version = 3;
    assert!(matches!(plan_send(&req), Err(RdmaError::UnsupportedHelperVersion(3))));
    req.protocol_version = 1;
    req.token_hex = "abc".to_string();
    assert!(matches!(plan_send(&req), Err(RdmaError::TokenLength)));
    req.token_hex = "x".repeat(32);
    assert!(matches!(plan_send(&req), Err(RdmaError::TokenDigit)));
    req.token_hex = "0".repeat(32);
    req.destination_addr = "example.com".to_string();
    assert!(matches!(plan_send(&req), Err(RdmaError::BadDestinationAddress)));
}

#[test]
fn sender_and_receiver_agree_on_a_transfer() {
    let token = [9_u8; 16];
    let req = new_send_request("/f".to_string(), [127, 0, 0, 1], 9, token, 10, 4);
    let plan = plan_send(&req).unwrap();
    assert!(matches!(
        SendProgress::start(&plan, 10, 11),
        Err(RdmaError::SourceSizeChanged { expected: 10, got: 11 })
    ));
    let mut sender = SendProgress::start(&plan, 10, 10).unwrap();
    let mut receiver = ReceiveSession::new(token, 10, plan.chunk_size);
    receiver.begin_stream();
    let data = b"0123456789";
    let mut written = Vec::new();
    for chunk in data.chunks(plan.chunk_size) {
        let packet = sender.data_packet(chunk).unwrap();
        let n = receiver.check_header(&packet[..HEADER_LEN]).unwrap();
        assert_eq!(n, chunk.len());
        let decoded = decode_packet(&packet).unwrap();
        assert_eq!(receiver.accept(&decoded), Ok(PacketAction::Write));
        written.extend_from_slice(decoded.payload);
    }
    assert!(receiver.finish().is_ok());
    let (done, report) = sender.finish().unwrap();
    assert_eq!(report.bytes_sent, 10);
    assert_eq!(report.chunks_sent, 3);
    assert_eq!(receiver.accept(&decode_packet(&done).unwrap()), Ok(PacketAction::Done));
    assert!(receiver.is_done());
    let rep = receiver.finish().unwrap();
    assert_eq!(rep.bytes_received, 10);
    assert_eq!(rep.chunks_received, 3);
    assert_eq!(written, data);
}

#[test]
fn receiver_refuses_out_of_order_and_oversized_data() {
    let token = [3_u8; 16];
    let mut r = ReceiveSession::new(token, 8, 4);
    assert_eq!(r.chunk_size(), 4);
    let big = encode_packet(KIND_DATA, &token, 0, b"12345").unwrap();
    assert_eq!(
        r.check_header(&big[..HEADER_LEN]),
        Err(RdmaError::PayloadExceedsChunk { payload_len: 5, chunk_size: 4 })
    );
    let late = encode_packet(KIND_DATA, &token, 4, b"ab").unwrap();
    assert_eq!(
        r.accept(&decode_packet(&late).unwrap()),
        Err(RdmaError::OutOfOrder { expected: 0, got: 4 })
    );
    let first = encode_packet(KIND_DATA, &token, 0, b"abcd").unwrap();
    assert_eq!(r.accept(&decode_packet(&first).unwrap()), Ok(PacketAction::Write));
    let too_much = encode_packet(KIND_DATA, &token, 4, b"abcde").unwrap();
    assert_eq!(
        r.accept(&decode_packet(&too_much).unwrap()),
        Err(RdmaError::ExceedsExpectedSize { next: 9, expected: 8 })
    );
    let early_done = encode_packet(KIND_DONE, &token, 3, b"").unwrap();
    assert_eq!(
        r.accept(&decode_packet(&early_done).unwrap()),
        Err(RdmaError::DoneOffsetMismatch { expected: 4, got: 3 })
    );
    let odd = encode_packet(9, &token, 4, b"").unwrap();
    assert_eq!(r.accept(&decode_packet(&odd).unwrap()), Err(RdmaError::UnknownKind(9)));
    assert_eq!(r.received(), 4);
    assert_eq!(r.finish().unwrap_err(), RdmaError::Incomplete { expected: 8, received: 4 });
}

#[test]
fn receiver_drops_other_sessions() {
    let token = [3_u8; 16];
    let other = [4_u8; 16];
    let mut r = ReceiveSession::new(token, 8, 0);
    assert_eq!(r.chunk_size(), 1);
    assert_eq!(r.token(), token);
    let stray = encode_packet(KIND_DATA, &other, 0, b"x").unwrap();
    r.begin_stream();
    assert_eq!(r.accept(&decode_packet(&stray).unwrap()), Ok(PacketAction::Reconnect));
    let mine = encode_packet(KIND_DATA, &token, 0, b"y").unwrap();
    assert_eq!(r.accept(&decode_packet(&mine).unwrap()), Ok(PacketAction::Write));
    assert_eq!(r.accept(&decode_packet(&stray).unwrap()), Ok(PacketAction::Skip));
}

#[test]
fn bind_address_choice() {
    assert_eq!(bind_addr_choice(None), Ok(None));
    assert_eq!(bind_addr_choice(Some(IpAddress::V4([10, 0, 0, 2]))), Ok(Some([10, 0, 0, 2])));
    assert_eq!(
        bind_addr_choice(Some(IpAddress::V4([0, 0, 0, 0]))),
        Err(RdmaError::BindAddrUnspecified)
    );
    assert_eq!(
        bind_addr_choice(Some(IpAddress::V6([0, 0, 0, 0, 0, 0, 0, 1]))),
        Err(RdmaError::BindAddrNotIpv4)
    );
}

#[test]
fn fallback_token_mixes_clock_and_pid() {
    let nanos: u128 = 0x0123_4567_89ab_cdef_0011_2233_4455_6677;
    let pid: u32 = 4242;
    let expected = (nanos ^ (pid as u128).rotate_left(17)).to_be_bytes();
    assert_eq!(fallback_token(nanos, pid), expected);
    assert_eq!(fallback_token(0, 0), [0; 16]);
}

#[test]
fn copy_result_constructors() {
    match RdmaCopyResult::unavailable("no device".to_string()) {
        RdmaCopyResult::Unavailable { reason, cache_for_run } => {
            assert_eq!(reason, "no device");
            assert!(!cache_for_run);
        }
        other => panic!("unexpected {other:?}"),
    }
    match RdmaCopyResult::setup_unavailable("no rsocket".to_string()) {
        RdmaCopyResult::Unavailable { reason, cache_for_run } => {
            assert_eq!(reason, "no rsocket");
            assert!(cache_for_run);
        }
        other => panic!("unexpected {other:?}"),
    }
}
