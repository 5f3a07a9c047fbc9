use mini_lsm::block::{Block, BlockBuilder, BlockIterator, CorruptBlock};
use mini_lsm::utils::{key_le, key_lt, FromLeBytesSlice};
use std::sync::Arc;

#[test]
fn from_le_bytes_slice_reads_little_endian() {
    assert_eq!(u16::from_le_bytes_slice(&[0x34, 0x12]), 0x1234);
    assert_eq!(u16::from_le_bytes_slice(&[0x00, 0x00]), 0);
    assert_eq!(u16::from_le_bytes_slice(&[0xff, 0xff]), 0xffff);
}

#[test]
fn key_order_is_lexicographic() {
    assert!(key_lt(b"apple", b"banana"));
    assert!(key_lt(b"app", b"apple"));
    assert!(!key_lt(b"apple", b"apple"));
    assert!(!key_lt(b"banana", b"apple"));
    assert!(key_le(b"apple", b"apple"));
    assert!(key_le(b"", b"a"));
    assert!(!key_le(b"a", b""));
}

#[test]
fn builder_starts_empty_and_fills() {
    let mut b = BlockBuilder::new(64);
    assert!(b.is_empty());
    assert!(b.add(b"k", b"v"));
    assert!(!b.is_empty());
}

#[test]
fn three_entries_iterate_in_insertion_order() {
    // block_size = 64: all three entries fit the budget
    let mut b = BlockBuilder::new(64);
    assert!(b.add(b"apple", b"1"));
    assert!(b.add(b"banana", b"22"));
    assert!(b.add(b"cherry", b"333"));
    let block = Arc::new(b.build());
    let mut it = BlockIterator::create_and_seek_to_first(block);
    assert!(it.is_valid());
    assert_eq!(it.key(), b"apple");
    assert_eq!(it.value(), b"1");
    it.next();
    assert!(it.is_valid());
    assert_eq!(it.key(), b"banana");
    assert_eq!(it.value(), b"22");
    it.next();
    assert!(it.is_valid());
    assert_eq!(it.key(), b"cherry");
    assert_eq!(it.value(), b"333");
    it.next();
    assert!(!it.is_valid());
    assert_eq!(it.key(), b"");
    assert_eq!(it.value(), b"");
}

#[test]
fn seek_lands_on_first_key_at_or_past_target() {
    let mut b = BlockBuilder::new(64);
    assert!(b.add(b"apple", b"1"));
    assert!(b.add(b"banana", b"22"));
    assert!(b.add(b"cherry", b"333"));
    let block = Arc::new(b.build());

    let it = BlockIterator::create_and_seek_to_key(Arc::clone(&block), b"b");
    assert!(it.is_valid());
    assert_eq!(it.key(), b"banana");
    assert_eq!(it.value(), b"22");

    let it = BlockIterator::create_and_seek_to_key(Arc::clone(&block), b"banana");
    assert!(it.is_valid());
    assert_eq!(it.key(), b"banana");

    let it = BlockIterator::create_and_seek_to_key(Arc::clone(&block), b"z");
    assert!(!it.is_valid());

    let mut it = BlockIterator::create_and_seek_to_first(block);
    it.seek_to_key(b"cz");
    assert!(!it.is_valid());
    it.seek_to_key(b"");
    assert!(it.is_valid());
    assert_eq!(it.key(), b"apple");
    it.seek_to_first();
    assert_eq!(it.key(), b"apple");
}

#[test]
fn budget_rejects_entry_past_block_size_without_mutating() {
    let mut b = BlockBuilder::new(16);
    // first entry: estimated size becomes 1 + 6 + 2 = 9
    assert!(b.add(b"a", b"1"));
    // second entry would make it 9 + 6 + 1 + 2 = 18 > 16
    assert!(!b.add(b"b", b"22"));
    let block = Arc::new(b.build());
    let mut it = BlockIterator::create_and_seek_to_first(block);
    assert_eq!(it.key(), b"a");
    it.next();
    assert!(!it.is_valid());
}

#[test]
fn first_entry_is_admitted_past_the_budget() {
    let mut b = BlockBuilder::new(8);
    assert!(b.add(b"quite-a-long-key", b"and-a-long-value"));
    assert!(!b.add(b"z", b""));
    let block = b.build();
    assert!(block.estimated_size() > 8);
}

#[test]
fn estimated_size_counts_count_data_and_offsets() {
    let mut b = BlockBuilder::new(64);
    assert!(b.add(b"ab", b"c"));
    let block = b.build();
    // 1 (count) + 7 data bytes (2 + 2 + 2 + 1) + 2 offset bytes
    assert_eq!(block.estimated_size(), 10);
}

#[test]
fn encode_produces_exact_wire_bytes() {
    let mut b = BlockBuilder::new(64);
    assert!(b.add(b"a", b"1"));
    let block = b.build();
    let enc = block.encode();
    // data: key_len 1, 'a', value_len 1, '1'; one offset 0; one entry
    assert_eq!(enc, vec![1, 0, 97, 1, 0, 49, 0, 0, 1, 0]);
}

#[test]
fn decode_reverses_encode() {
    let mut b = BlockBuilder::new(64);
    assert!(b.add(b"apple", b"1"));
    assert!(b.add(b"banana", b"22"));
    assert!(b.add(b"cherry", b"333"));
    let block = b.build();
    let enc = block.encode();
    let decoded = Block::decode(enc.as_slice()).unwrap();
    assert_eq!(decoded.data, block.data);
    assert_eq!(decoded.offsets, block.offsets);
    let mut it = BlockIterator::create_and_seek_to_first(Arc::new(decoded));
    assert_eq!(it.key(), b"apple");
    it.next();
    assert_eq!(it.key(), b"banana");
    it.next();
    assert_eq!(it.key(), b"cherry");
    it.next();
    assert!(!it.is_valid());
}

#[test]
fn decode_rejects_short_input() {
    assert!(matches!(Block::decode(&[]), Err(CorruptBlock)));
    assert!(matches!(Block::decode(&[7]), Err(CorruptBlock)));
}

#[test]
fn decode_rejects_zero_entries() {
    assert!(matches!(Block::decode(&[0, 0]), Err(CorruptBlock)));
}

#[test]
fn decode_rejects_count_past_input() {
    // declares 9 entries: the offsets section alone would need 18 bytes
    assert!(matches!(Block::decode(&[1, 0, 9, 0]), Err(CorruptBlock)));
}

#[test]
fn decode_rejects_offset_out_of_range() {
    // valid single-entry data, but the offset points past it
    let bytes = vec![1, 0, 97, 1, 0, 49, 5, 0, 1, 0];
    assert!(matches!(Block::decode(&bytes), Err(CorruptBlock)));
}

#[test]
fn decode_rejects_empty_key() {
    // entry with key_len 0
    let bytes = vec![0, 0, 1, 0, 49, 0, 0, 1, 0];
    assert!(matches!(Block::decode(&bytes), Err(CorruptBlock)));
}

#[test]
fn decode_rejects_unsorted_keys() {
    // two entries with keys "b" then "a"
    let bytes = vec![1, 0, 98, 0, 0, 1, 0, 97, 0, 0, 0, 0, 5, 0, 2, 0];
    assert!(matches!(Block::decode(&bytes), Err(CorruptBlock)));
}

#[test]
fn decode_rejects_gap_between_entries() {
    // single entry ends at byte 6 but data runs to 7
    let bytes = vec![1, 0, 97, 1, 0, 49, 9, 0, 0, 1, 0];
    assert!(matches!(Block::decode(&bytes), Err(CorruptBlock)));
}
