use std::sync::Arc;

use mini_lsm::block_iterator::BlockIterator;
use mini_lsm::iterators::{StorageError, StorageIterator};
use mini_lsm::table::{BlockMeta, SsTable};
use mini_lsm::table_builder::SsTableBuilder;
use mini_lsm::table_iterator::SsTableIterator;

fn key_of(i: usize) -> Vec<u8> {
    format!("key_{:03}", i).into_bytes()
}

fn value_of(i: usize) -> Vec<u8> {
    format!("value_{}", i).into_bytes()
}

fn build_table(n: usize, block_size: usize) -> SsTable {
    let mut b = SsTableBuilder::new(block_size);
    for i in 0..n {
        b.add(&key_of(i), &value_of(i));
    }
    b.build(7).unwrap()
}

#[test]
fn test_table_continuity() {
    let table = build_table(50, 64);
    assert!(table.block_meta.len() > 3);
    let mut per_block = Vec::new();
    for idx in 0..table.block_meta.len() {
        let mut it = BlockIterator::create_and_seek_to_first(table.read_block(idx).unwrap());
        while it.is_valid() {
            per_block.push((it.key().to_vec(), it.value().to_vec()));
            it.next().unwrap();
        }
    }
    let table = Arc::new(table);
    let mut it = SsTableIterator::create_and_seek_to_first(table).unwrap();
    let mut whole = Vec::new();
    while it.is_valid() {
        whole.push((it.key().to_vec(), it.value().to_vec()));
        it.next().unwrap();
    }
    assert_eq!(whole, per_block);
    let expected: Vec<(Vec<u8>, Vec<u8>)> = (0..50).map(|i| (key_of(i), value_of(i))).collect();
    assert_eq!(whole, expected);
}

#[test]
fn test_table_degenerate() {
    let b = SsTableBuilder::new(64);
    assert_eq!(b.estimated_size(), 0);
    let table = b.build(3).unwrap();
    assert!(table.block_meta.is_empty());
    assert!(table.first_key.is_empty());
    assert!(table.last_key.is_empty());
    assert_eq!(table.id, 3);
    assert_eq!(table.max_ts, 0);
    assert_eq!(table.file, vec![0, 0, 0, 0]);
    assert!(matches!(
        SsTableIterator::create_and_seek_to_first(Arc::new(table)),
        Err(StorageError::BlockOutOfRange)
    ));
}

#[test]
fn test_table_boundary_keys_and_directory() {
    let table = build_table(30, 64);
    assert_eq!(table.first_key, key_of(0));
    assert_eq!(table.last_key, key_of(29));
    assert_eq!(table.block_meta[0].offset, 0);
    assert_eq!(table.block_meta[0].first_key, key_of(0));
    for w in table.block_meta.windows(2) {
        assert!(w[0].offset < w[1].offset);
        assert!(w[0].last_key < w[1].first_key);
    }
    let n = table.file.len();
    let stated = u32::from_be_bytes([
        table.file[n - 4],
        table.file[n - 3],
        table.file[n - 2],
        table.file[n - 1],
    ]) as usize;
    assert_eq!(stated, table.block_meta_offset);
    let last = table.block_meta.last().unwrap();
    assert!(last.offset < table.block_meta_offset);
}

#[test]
fn test_encode_block_meta_layout() {
    let metas = vec![BlockMeta { offset: 0x01020304, first_key: b"a".to_vec(), last_key: b"bc".to_vec() }];
    let mut buf = vec![9];
    BlockMeta::encode_block_meta(&metas, &mut buf);
    assert_eq!(buf, vec![9, 1, 2, 3, 4, 0, 1, b'a', 0, 2, b'b', b'c']);
}

#[test]
fn test_table_seek_to_key() {
    let table = Arc::new(build_table(50, 64));
    let mut it = SsTableIterator::create_and_seek_to_key(table.clone(), &key_of(17)).unwrap();
    assert_eq!(it.key(), key_of(17).as_slice());
    assert_eq!(it.value(), value_of(17).as_slice());
    it.next().unwrap();
    assert_eq!(it.key(), key_of(18).as_slice());
    it.seek_to_key(b"key_020x").unwrap();
    assert_eq!(it.key(), key_of(21).as_slice());
    it.seek_to_key(b"a").unwrap();
    assert_eq!(it.key(), key_of(0).as_slice());
    it.seek_to_key(b"zzz").unwrap();
    assert!(!it.is_valid());
    it.seek_to_first().unwrap();
    assert_eq!(it.key(), key_of(0).as_slice());
    for idx in 0..table.block_meta.len() {
        let first = table.block_meta[idx].first_key.clone();
        let it = SsTableIterator::create_and_seek_to_key(table.clone(), &first).unwrap();
        assert_eq!(it.key(), first.as_slice());
    }
}

#[test]
fn test_read_block_errors() {
    let table = build_table(5, 64);
    assert!(matches!(table.read_block(table.block_meta.len()), Err(StorageError::BlockOutOfRange)));
    let mut broken = build_table(5, 4096);
    broken.file[broken.block_meta_offset - 1] = 200;
    assert!(matches!(broken.read_block(0), Err(StorageError::Corrupt)));
}

#[test]
fn test_estimated_size() {
    let mut b = SsTableBuilder::new(64);
    assert_eq!(b.estimated_size(), 0);
    for i in 0..50 {
        b.add(&key_of(i), &value_of(i));
    }
    let table = {
        let est = b.estimated_size();
        let t = b.build(0).unwrap();
        assert_eq!(est, (t.block_meta.len() - 1) * 64);
        t
    };
    assert!(table.block_meta.len() > 1);
}

#[test]
fn test_single_oversized_entries_get_own_blocks() {
    let mut b = SsTableBuilder::new(8);
    b.add(b"aaaaaaaaaa", b"1");
    b.add(b"bbbbbbbbbb", b"2");
    let table = Arc::new(b.build(0).unwrap());
    assert_eq!(table.block_meta.len(), 2);
    let mut it = SsTableIterator::create_and_seek_to_first(table).unwrap();
    assert_eq!(it.key(), b"aaaaaaaaaa");
    it.next().unwrap();
    assert_eq!(it.key(), b"bbbbbbbbbb");
    assert_eq!(it.value(), b"2");
    it.next().unwrap();
    assert!(!it.is_valid());
}

#[test]
fn test_table_directory_matches_blocks() {
    let table = build_table(40, 64);
    for idx in 0..table.block_meta.len() {
        let mut it = BlockIterator::create_and_seek_to_first(table.read_block(idx).unwrap());
        assert_eq!(it.key(), table.block_meta[idx].first_key.as_slice());
        let mut last = Vec::new();
        while it.is_valid() {
            last = it.key().to_vec();
            it.next().unwrap();
        }
        assert_eq!(last, table.block_meta[idx].last_key);
    }
    let off = table.block_meta_offset;
    let mut dir = Vec::new();
    BlockMeta::encode_block_meta(&table.block_meta, &mut dir);
    assert_eq!(&table.file[off..off + dir.len()], dir.as_slice());
    assert_eq!(table.file.len(), off + dir.len() + 4);
}

#[test]
fn test_table_next_reports_corrupt_block() {
    let mut table = build_table(20, 64);
    assert!(table.block_meta.len() >= 2);
    let end_of_second = if table.block_meta.len() > 2 {
        table.block_meta[2].offset
    } else {
        table.block_meta_offset
    };
    table.file[end_of_second - 1] = 250;
    let first_block_len = table.read_block(0).unwrap().offsets.len();
    let mut it = SsTableIterator::create_and_seek_to_first(Arc::new(table)).unwrap();
    for _ in 0..first_block_len - 1 {
        it.next().unwrap();
    }
    assert!(matches!(it.next(), Err(StorageError::Corrupt)));
    assert!(!it.is_valid());
}
