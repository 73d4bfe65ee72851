use std::sync::Arc;

use mini_lsm::block::Block;
use mini_lsm::block_builder::BlockBuilder;
use mini_lsm::block_iterator::BlockIterator;
use mini_lsm::iterators::StorageIterator;
use mini_lsm::key::{key_equal, key_less};

fn build_block(entries: &[(&[u8], &[u8])], capacity: usize) -> Block {
    let mut b = BlockBuilder::new(capacity);
    for (k, v) in entries {
        assert!(b.add(k, v));
    }
    b.build()
}

fn collect(it: &mut BlockIterator) -> Vec<(Vec<u8>, Vec<u8>)> {
    let mut out = Vec::new();
    while it.is_valid() {
        out.push((it.key().to_vec(), it.value().to_vec()));
        it.next().unwrap();
    }
    out
}

#[test]
fn test_key_order() {
    assert!(key_less(b"a", b"b"));
    assert!(key_less(b"a", b"ab"));
    assert!(!key_less(b"ab", b"a"));
    assert!(!key_less(b"abc", b"abc"));
    assert!(key_less(b"", b"a"));
    assert!(key_equal(b"abc", b"abc"));
    assert!(!key_equal(b"abc", b"abd"));
    assert!(!key_equal(b"ab", b"abc"));
}

#[test]
fn test_encode_layout() {
    let block = build_block(&[(b"a", b"bc")], 100);
    assert_eq!(block.data, vec![0, 1, b'a', 0, 2, b'b', b'c']);
    assert_eq!(block.offsets, vec![0]);
    assert_eq!(block.encode(), vec![0, 1, b'a', 0, 2, b'b', b'c', 0, 0, 0, 1]);
}

#[test]
fn test_block_round_trip() {
    let entries: Vec<(Vec<u8>, Vec<u8>)> = (0..40)
        .map(|i| (format!("key_{:03}", i).into_bytes(), vec![i as u8; i % 7]))
        .collect();
    let refs: Vec<(&[u8], &[u8])> = entries.iter().map(|(k, v)| (k.as_slice(), v.as_slice())).collect();
    let block = build_block(&refs, 4096);
    let decoded = Block::decode(&block.encode());
    assert_eq!(decoded.data, block.data);
    assert_eq!(decoded.offsets, block.offsets);
    let mut it = BlockIterator::create_and_seek_to_first(Arc::new(decoded));
    assert_eq!(collect(&mut it), entries);
}

#[test]
fn test_packing_within_capacity() {
    let mut b = BlockBuilder::new(40);
    let mut added = 0;
    for i in 0..100u32 {
        let key = format!("k{:03}", i);
        if !b.add(key.as_bytes(), b"vv") {
            break;
        }
        added += 1;
    }
    // each entry takes 4 + 2 + 6 = 12 bytes after the 2-byte count
    assert_eq!(added, 3);
    let block = b.build();
    assert!(block.encode().len() <= 40);
    assert_eq!(block.encode().len(), 38);
}

#[test]
fn test_oversized_first_entry() {
    let mut b = BlockBuilder::new(10);
    assert!(b.is_empty());
    assert!(b.add(b"a_rather_long_key", b"and_a_value"));
    assert!(!b.is_empty());
    assert!(!b.add(b"b", b""));
    let block = b.build();
    assert_eq!(block.offsets.len(), 1);
    assert_eq!(block.encode().len(), 2 + 17 + 11 + 6);
}

#[test]
fn test_refused_add_leaves_builder() {
    let mut b = BlockBuilder::new(20);
    assert!(b.add(b"a", b"1"));
    assert!(!b.add(b"bbbbbbbbbb", b"2"));
    let block = b.build();
    assert_eq!(block.data, vec![0, 1, b'a', 0, 1, b'1']);
    assert_eq!(block.offsets, vec![0]);
}

#[test]
fn test_block_cursor_order() {
    let block = Arc::new(build_block(&[(b"a", b"1"), (b"b", b"2"), (b"c", b"3")], 1000));
    let mut it = BlockIterator::create_and_seek_to_first(block);
    assert!(it.is_valid());
    assert_eq!(it.key(), b"a");
    assert_eq!(it.value(), b"1");
    it.next().unwrap();
    assert_eq!(it.key(), b"b");
    assert_eq!(it.value(), b"2");
    it.next().unwrap();
    assert_eq!(it.key(), b"c");
    assert_eq!(it.value(), b"3");
    it.next().unwrap();
    assert!(!it.is_valid());
    assert_eq!(it.key(), b"");
    it.seek_to_first();
    assert_eq!(it.key(), b"a");
}

#[test]
fn test_block_seek_to_key() {
    let block = Arc::new(build_block(&[(b"b", b"1"), (b"d", b"2"), (b"f", b"3")], 1000));
    let mut it = BlockIterator::create_and_seek_to_key(block.clone(), b"c");
    assert_eq!(it.key(), b"d");
    assert_eq!(it.value(), b"2");
    it.seek_to_key(b"d");
    assert_eq!(it.key(), b"d");
    it.seek_to_key(b"a");
    assert_eq!(it.key(), b"b");
    it.seek_to_key(b"f");
    assert_eq!(it.key(), b"f");
    it.seek_to_key(b"g");
    assert!(!it.is_valid());
    let it2 = BlockIterator::create_and_seek_to_key(block, b"");
    assert_eq!(it2.key(), b"b");
}

#[test]
fn test_decode_empty_block() {
    let block = Block::decode(&[0, 0]);
    assert!(block.data.is_empty());
    assert!(block.offsets.is_empty());
    assert!(block.is_well_formed());
    let it = BlockIterator::create_and_seek_to_first(Arc::new(block));
    assert!(!it.is_valid());
}

#[test]
fn test_well_formed_check() {
    let good = build_block(&[(b"a", b"1")], 100);
    assert!(good.is_well_formed());
    let bad = Block { data: vec![0, 5, b'a'], offsets: vec![0] };
    assert!(!bad.is_well_formed());
    let empty_key = Block { data: vec![0, 0, 0, 0], offsets: vec![0] };
    assert!(!empty_key.is_well_formed());
}

#[test]
fn test_small_builder_fills_up() {
    let mut b = BlockBuilder::new(20);
    assert!(b.add(b"a", b"1"));
    assert!(b.add(b"b", b"2"));
    assert!(!b.add(b"c", b"3"));
    let block = b.build();
    assert_eq!(block.offsets, vec![0, 6]);
    assert_eq!(block.data, vec![0, 1, b'a', 0, 1, b'1', 0, 1, b'b', 0, 1, b'2']);
    assert_eq!(block.encode().len(), 18);
}

#[test]
fn test_three_key_seek() {
    let block = Arc::new(build_block(&[(b"a", b"1"), (b"c", b"3"), (b"e", b"5")], 4096));
    let mut it = BlockIterator::create_and_seek_to_first(block);
    it.seek_to_key(b"b");
    assert_eq!(it.key(), b"c");
    assert_eq!(it.value(), b"3");
    it.seek_to_key(b"c");
    assert_eq!(it.key(), b"c");
    it.seek_to_key(b"a");
    assert_eq!(it.key(), b"a");
    it.seek_to_key(b"f");
    assert!(!it.is_valid());
    assert_eq!(it.value(), b"");
}
