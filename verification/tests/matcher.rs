use parsync::delta::matcher::{build_delta_ops, find_match};
use parsync::delta::protocol::{BlockSigWire, DeltaOp, HelperRequest};
use parsync::delta::signature::build_signature_from_bytes;
use parsync::remote_helper::{check_request, HelperError};

fn wire_blocks(basis: &[u8], bs: u32) -> Vec<BlockSigWire> {
    let sig = build_signature_from_bytes(basis, bs);
    sig.blocks
        .iter()
        .map(|b| BlockSigWire {
            index: b.index,
            len: b.len,
            weak: b.weak,
            strong_hex: format!("{:032x}", b.strong),
        })
        .collect()
}

#[test]
fn matcher_emits_copy_and_literal() {
    let blocks = wire_blocks(b"abcdefghijklmnop", 4);
    let src = b"abcdZZZZijklmnop";
    let out = build_delta_ops(src, 1, 4, &blocks);
    assert!(!out.ops.is_empty());
    assert!(out.copy_bytes > 0);
}

#[test]
fn matcher_ops_for_one_changed_block() {
    let blocks = wire_blocks(b"abcdefghijklmnop", 4);
    let out = build_delta_ops(b"abcdZZZZijklmnop", 7, 4, &blocks);
    assert_eq!(out.protocol_version, 1);
    assert_eq!(out.source_size, 16);
    assert_eq!(out.source_mtime_secs, 7);
    assert_eq!(out.copy_bytes, 12);
    assert_eq!(out.literal_bytes, 4);
    assert_eq!(out.ops.len(), 4);
    assert!(matches!(out.ops[0], DeltaOp::Copy { block_index: 0, len: 4 }));
    match &out.ops[1] {
        DeltaOp::Literal { data_b64 } => assert_eq!(data_b64, "WlpaWg=="),
        other => panic!("expected a literal, got {other:?}"),
    }
    assert!(matches!(out.ops[2], DeltaOp::Copy { block_index: 2, len: 4 }));
    assert!(matches!(out.ops[3], DeltaOp::Copy { block_index: 3, len: 4 }));
    assert_eq!(out.final_digest_hex, format!("{:x}", md5::compute(b"abcdZZZZijklmnop")));
}

#[test]
fn unchanged_file_is_all_copies_but_the_short_tail() {
    let data = b"the quick brown fox jumps over the lazy dog";
    let blocks = wire_blocks(data, 8);
    let out = build_delta_ops(data, 0, 8, &blocks);
    assert_eq!(out.copy_bytes, 40);
    assert_eq!(out.literal_bytes, 3);
    assert_eq!(out.ops.len(), 6);
    assert!(matches!(out.ops[5], DeltaOp::Literal { .. }));
}

#[test]
fn shifted_source_is_found_at_any_offset() {
    let blocks = wire_blocks(b"abcdefgh", 4);
    let out = build_delta_ops(b"XYabcdefgh", 0, 4, &blocks);
    assert_eq!(out.copy_bytes, 8);
    assert_eq!(out.literal_bytes, 2);
    assert_eq!(out.ops.len(), 3);
    match &out.ops[0] {
        DeltaOp::Literal { data_b64 } => assert_eq!(data_b64, "WFk="),
        other => panic!("expected a literal, got {other:?}"),
    }
}

#[test]
fn no_blocks_or_zero_block_size_sends_everything_literally() {
    let out = build_delta_ops(b"abcdef", 0, 4, &[]);
    assert_eq!(out.copy_bytes, 0);
    assert_eq!(out.literal_bytes, 6);
    assert_eq!(out.ops.len(), 1);
    let blocks = wire_blocks(b"abcdef", 4);
    let zero = build_delta_ops(b"abcdef", 0, 0, &blocks);
    assert_eq!(zero.copy_bytes, 0);
    assert_eq!(zero.ops.len(), 1);
    let empty = build_delta_ops(b"", 0, 4, &blocks);
    assert_eq!(empty.ops.len(), 0);
    assert_eq!(empty.final_digest_hex, "d41d8cd98f00b204e9800998ecf8427e");
}

#[test]
fn candidate_with_bad_strong_hash_is_not_copied() {
    let mut blocks = wire_blocks(b"abcd", 4);
    blocks[0].strong_hex = "not hex".to_string();
    let out = build_delta_ops(b"abcd", 0, 4, &blocks);
    assert_eq!(out.copy_bytes, 0);
    let mut good = wire_blocks(b"abcd", 4);
    good[0].strong_hex = good[0].strong_hex.to_uppercase();
    let out = build_delta_ops(b"abcd", 0, 4, &good);
    assert_eq!(out.copy_bytes, 4);
}

#[test]
fn find_match_takes_first_listed_candidate() {
    let mut blocks = wire_blocks(b"abcdabcd", 4);
    blocks[0].len = 3;
    let strong = u128::from_str_radix(&blocks[1].strong_hex, 16).unwrap();
    assert_eq!(find_match(&blocks, &[0, 1], 4, strong), Some(1));
    assert_eq!(find_match(&blocks, &[1, 0], 4, strong), Some(1));
    assert_eq!(find_match(&blocks, &[0], 4, strong), None);
    assert_eq!(find_match(&blocks, &[1], 4, strong ^ 1), None);
}

#[test]
fn helper_checks_protocol_version() {
    let mut req = HelperRequest {
        protocol_version: 1,
        source_path: "/tmp/x".to_string(),
        file_size: 0,
        mtime_secs: 0,
        block_size: 4,
        blocks: Vec::new(),
        max_literals: 0,
    };
    assert_eq!(check_request(&req), Ok(()));
    req.protocol_version = 2;
    assert_eq!(check_request(&req), Err(HelperError::UnsupportedProtocolVersion(2)));
}

#[test]
fn unchanged_file_copies_blocks_in_order_then_tail() {
    let data = b"0123456789abcdefXYZ";
    let blocks = wire_blocks(data, 4);
    let out = build_delta_ops(data, 0, 4, &blocks);
    assert_eq!(out.ops.len(), 5);
    for k in 0..4u64 {
        assert!(matches!(out.ops[k as usize], DeltaOp::Copy { block_index, len: 4 } if block_index == k));
    }
    match &out.ops[4] {
        DeltaOp::Literal { data_b64 } => assert_eq!(data_b64, "WFla"),
        other => panic!("expected a literal, got {other:?}"),
    }
    assert_eq!(out.copy_bytes, 16);
    assert_eq!(out.literal_bytes, 3);
}

#[test]
fn repeated_block_is_copied_from_its_first_occurrence() {
    let data = b"abcdabcd";
    let blocks = wire_blocks(data, 4);
    let out = build_delta_ops(data, 0, 4, &blocks);
    assert_eq!(out.ops.len(), 2);
    assert!(matches!(out.ops[0], DeltaOp::Copy { block_index: 0, len: 4 }));
    assert!(matches!(out.ops[1], DeltaOp::Copy { block_index: 0, len: 4 }));
}
