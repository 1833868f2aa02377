use mini_lsm::block::builder::BlockBuilder;
use mini_lsm::block::iterator::BlockIterator;
use mini_lsm::block::Block;
use mini_lsm::LsmError;

#[test]
fn test_block_encode_exact_bytes() {
    let mut builder = BlockBuilder::create(4096);
    assert!(builder.add(b"a", b"b"));
    let block = builder.build().unwrap();
    let encoded = block.encode();
    // One entry: overlap 0, suffix length 1, suffix "a", value length 1,
    // value "b"; then one offset 0 and the entry count 1, all big-endian.
    assert_eq!(
        encoded,
        vec![0x00, 0x00, 0x00, 0x01, b'a', 0x00, 0x01, b'b', 0x00, 0x00, 0x00, 0x01]
    );
}

#[test]
fn test_block_round_trip_with_prefix_compression() {
    let mut builder = BlockBuilder::create(4096);
    let keys: [&[u8]; 10] = [
        b"aaa", b"aab", b"aac", b"aad", b"aae", b"aaf", b"aag", b"aah", b"aai", b"aaj",
    ];
    let value = [0x01u8; 16];
    for key in keys.iter() {
        assert!(builder.add(key, &value));
    }
    let block = builder.build().unwrap();
    let encoded = block.encode();
    let decoded = Block::decode(&encoded).unwrap();
    assert_eq!(decoded.data, block.data);
    assert_eq!(decoded.offsets, block.offsets);
    assert_eq!(decoded.offsets.len(), 10);
    // Every entry after the first shares its two leading bytes with the
    // block's first key "aaa".
    for (i, off) in decoded.offsets.iter().enumerate() {
        let off = *off as usize;
        let overlap = u16::from_be_bytes([decoded.data[off], decoded.data[off + 1]]);
        if i == 0 {
            assert_eq!(overlap, 0);
        } else {
            assert_eq!(overlap, 2);
        }
    }
    let mut iter = BlockIterator::create_and_seek_to_first(decoded);
    for key in keys.iter() {
        assert!(iter.is_valid());
        assert_eq!(iter.key(), *key);
        assert_eq!(iter.value(), value.as_slice());
        iter.next();
    }
    assert!(!iter.is_valid());
}

#[test]
fn test_block_builder_size_limit() {
    let mut builder = BlockBuilder::create(32);
    // The first entry is accepted even though it overshoots the budget.
    assert!(builder.add(b"an oversized key", b"an oversized value"));
    // A later entry that would overflow the budget is rejected.
    assert!(!builder.add(b"k", b"v"));
    assert!(!builder.is_empty());
}

#[test]
fn test_block_builder_fits_within_budget() {
    let mut builder = BlockBuilder::create(4096);
    assert!(builder.add(b"k1", b"v1"));
    assert!(builder.add(b"k2", b"v2"));
    let block = builder.build().unwrap();
    assert_eq!(block.offsets.len(), 2);
}

#[test]
fn test_block_build_empty_fails() {
    let builder = BlockBuilder::create(4096);
    assert!(builder.is_empty());
    match builder.build() {
        Err(LsmError::EmptyBlock) => {}
        _ => panic!("an empty builder must fail with EmptyBlock"),
    }
}

#[test]
fn test_block_decode_short_buffer_fails() {
    match Block::decode(&[0x01]) {
        Err(LsmError::MalformedBlock) => {}
        _ => panic!("a one-byte buffer must fail with MalformedBlock"),
    }
}

#[test]
fn test_block_decode_truncated_offsets_fails() {
    // The suffix declares 200 entries, but the buffer cannot hold 400 bytes of
    // offsets.
    let buf = [0x00u8, 0x00, 0x00, 0xc8];
    match Block::decode(&buf) {
        Err(LsmError::MalformedBlock) => {}
        _ => panic!("a truncated offset region must fail with MalformedBlock"),
    }
}

#[test]
fn test_block_seek_to_key() {
    let mut builder = BlockBuilder::create(4096);
    assert!(builder.add(b"b", b"vb"));
    assert!(builder.add(b"d", b"vd"));
    assert!(builder.add(b"f", b"vf"));
    let block = builder.build().unwrap();
    let iter = BlockIterator::create_and_seek_to_key(block, b"c");
    assert!(iter.is_valid());
    assert_eq!(iter.key(), b"d".as_slice());
    assert_eq!(iter.value(), b"vd".as_slice());
}

#[test]
fn test_block_seek_to_key_duplicate_keys() {
    // The builder permits equal keys; the seek lands on the smallest index at
    // or above the probe, here the first of the two equal entries.
    let mut builder = BlockBuilder::create(4096);
    assert!(builder.add(b"b", b"vb"));
    assert!(builder.add(b"c", b"v1"));
    assert!(builder.add(b"c", b"v2"));
    let block = builder.build().unwrap();
    let mut iter = BlockIterator::create_and_seek_to_key(block, b"c");
    assert!(iter.is_valid());
    assert_eq!(iter.key(), b"c".as_slice());
    assert_eq!(iter.value(), b"v1".as_slice());
    iter.seek_to_key(b"ca");
    assert!(!iter.is_valid());
}

#[test]
fn test_block_builder_budget_counts_key_suffix() {
    // The projected size counts the key's suffix after prefix compression:
    // with budget 21, the second entry fits only because its key shares one
    // byte with the first key.
    let mut builder = BlockBuilder::create(21);
    assert!(builder.add(b"ab", b"v"));
    assert!(builder.add(b"ac", b"v"));
    assert!(!builder.add(b"ad", b"v"));
    let block = builder.build().unwrap();
    assert_eq!(block.offsets.len(), 2);
}

#[test]
fn test_block_seek_to_key_exact_and_past_end() {
    let mut builder = BlockBuilder::create(4096);
    assert!(builder.add(b"b", b"vb"));
    assert!(builder.add(b"d", b"vd"));
    let block = builder.build().unwrap();
    let mut iter = BlockIterator::create_and_seek_to_key(block, b"b");
    assert!(iter.is_valid());
    assert_eq!(iter.key(), b"b".as_slice());
    iter.seek_to_key(b"z");
    assert!(!iter.is_valid());
}
