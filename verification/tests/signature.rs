use parsync::delta::signature::{build_signature_from_bytes, choose_block_size};
use parsync::delta::checksum::{strong_hash128, weak_hash};

#[test]
fn block_size_is_adaptive() {
    assert_eq!(choose_block_size(1024, None), 32 * 1024);
    assert_eq!(choose_block_size(100 * 1024 * 1024, None), 64 * 1024);
    assert_eq!(choose_block_size(2 * 1024 * 1024 * 1024, None), 128 * 1024);
    assert_eq!(choose_block_size(10, Some(2048)), 2048);
}

#[test]
fn block_size_boundaries_and_floor() {
    assert_eq!(choose_block_size(64 * 1024 * 1024 - 1, None), 32 * 1024);
    assert_eq!(choose_block_size(64 * 1024 * 1024, None), 64 * 1024);
    assert_eq!(choose_block_size(1024 * 1024 * 1024 - 1, None), 64 * 1024);
    assert_eq!(choose_block_size(1024 * 1024 * 1024, None), 128 * 1024);
    assert_eq!(choose_block_size(10, Some(10)), 1024);
    assert_eq!(choose_block_size(10, Some(1024)), 1024);
}

#[test]
fn signature_builds_blocks() {
    let sig = build_signature_from_bytes(b"abcdefghijklmno", 4);
    assert_eq!(sig.blocks.len(), 4);
    assert_eq!(sig.file_size, 15);
}

#[test]
fn signature_blocks_carry_both_checksums() {
    let data = b"abcdefghijklmno";
    let sig = build_signature_from_bytes(data, 4);
    assert_eq!(sig.block_size, 4);
    for (k, b) in sig.blocks.iter().enumerate() {
        let start = k * 4;
        let end = (start + 4).min(data.len());
        assert_eq!(b.index, k as u64);
        assert_eq!(b.len as usize, end - start);
        assert_eq!(b.weak, weak_hash(&data[start..end]));
        assert_eq!(b.strong, strong_hash128(&data[start..end]));
    }
    assert_eq!(sig.blocks[3].len, 3);
}

#[test]
fn signature_edge_cases() {
    let empty = build_signature_from_bytes(b"", 4);
    assert_eq!(empty.blocks.len(), 0);
    assert_eq!(empty.file_size, 0);
    let zero = build_signature_from_bytes(b"abc", 0);
    assert_eq!(zero.blocks.len(), 0);
    assert_eq!(zero.file_size, 0);
    let exact = build_signature_from_bytes(b"abcdefgh", 4);
    assert_eq!(exact.blocks.len(), 2);
    assert_eq!(exact.blocks[1].len, 4);
}

#[test]
fn wire_form_writes_strong_hash_as_hex() {
    let sig = build_signature_from_bytes(b"abcd", 4);
    let w = sig.blocks[0].to_wire();
    assert_eq!(w.strong_hex, format!("{:032x}", sig.blocks[0].strong));
    assert_eq!(w.strong_hex, "e2fc714c4727ee9395f324cd2e7f331f");
    assert_eq!(w.index, 0);
    assert_eq!(w.len, 4);
    assert_eq!(w.weak, sig.blocks[0].weak);
}
