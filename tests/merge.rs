use std::sync::Arc;

use mini_lsm::block_builder::BlockBuilder;
use mini_lsm::block_iterator::BlockIterator;
use mini_lsm::iterators::StorageIterator;
use mini_lsm::merge_iterator::MergeIterator;
use mini_lsm::two_merge_iterator::TwoMergeIterator;

fn source(entries: &[(&str, &str)]) -> BlockIterator {
    let mut b = BlockBuilder::new(4096);
    for (k, v) in entries {
        assert!(b.add(k.as_bytes(), v.as_bytes()));
    }
    BlockIterator::create_and_seek_to_first(Arc::new(b.build()))
}

fn empty_source() -> BlockIterator {
    BlockIterator::create_and_seek_to_first(Arc::new(mini_lsm::block::Block::decode(&[0, 0])))
}

fn drain<I: StorageIterator>(it: &mut I) -> Vec<(String, String)> {
    let mut out = Vec::new();
    while it.is_valid() {
        out.push((
            String::from_utf8(it.key().to_vec()).unwrap(),
            String::from_utf8(it.value().to_vec()).unwrap(),
        ));
        it.next().unwrap();
    }
    out
}

fn pairs(v: &[(&str, &str)]) -> Vec<(String, String)> {
    v.iter().map(|(k, v)| (k.to_string(), v.to_string())).collect()
}

#[test]
fn test_merge_shadowing() {
    let s0 = source(&[("a", "0a"), ("x", "new")]);
    let s1 = source(&[("b", "1b")]);
    let s2 = source(&[("x", "old"), ("z", "2z")]);
    let mut m = MergeIterator::create(vec![Box::new(s0), Box::new(s1), Box::new(s2)]);
    assert_eq!(
        drain(&mut m),
        pairs(&[("a", "0a"), ("b", "1b"), ("x", "new"), ("z", "2z")])
    );
    assert!(!m.is_valid());
    assert_eq!(m.key(), b"");
}

#[test]
fn test_merge_totality() {
    let s0 = source(&[("1", "r0"), ("3", "r0"), ("5", "r0")]);
    let s1 = source(&[("2", "r1"), ("3", "r1"), ("4", "r1")]);
    let mut m = MergeIterator::create(vec![Box::new(s0), Box::new(s1)]);
    assert_eq!(
        drain(&mut m),
        pairs(&[("1", "r0"), ("2", "r1"), ("3", "r0"), ("4", "r1"), ("5", "r0")])
    );
}

#[test]
fn test_merge_rank_not_order() {
    // the lower rank wins even where it is listed with an exhausted source before it
    let s0 = empty_source();
    let s1 = source(&[("k", "first")]);
    let s2 = source(&[("k", "second")]);
    let mut m = MergeIterator::create(vec![Box::new(s0), Box::new(s1), Box::new(s2)]);
    assert_eq!(m.value(), b"first");
    assert_eq!(drain(&mut m), pairs(&[("k", "first")]));
}

#[test]
fn test_merge_no_sources() {
    let m: MergeIterator<BlockIterator> = MergeIterator::create(Vec::new());
    assert!(!m.is_valid());
    assert_eq!(m.value(), b"");
}

#[test]
fn test_two_merge_tie_break() {
    let a = source(&[("2", "a2"), ("4", "a4")]);
    let b = source(&[("2", "b2"), ("3", "b3")]);
    let mut m = TwoMergeIterator::create(a, b).unwrap();
    assert_eq!(drain(&mut m), pairs(&[("2", "a2"), ("3", "b3"), ("4", "a4")]));
}

#[test]
fn test_two_merge_one_side_empty() {
    let a = empty_source();
    let b = source(&[("1", "b1"), ("2", "b2")]);
    let mut m = TwoMergeIterator::create(a, b).unwrap();
    assert_eq!(drain(&mut m), pairs(&[("1", "b1"), ("2", "b2")]));
    let a = source(&[("1", "a1")]);
    let mut m = TwoMergeIterator::create(a, empty_source()).unwrap();
    assert_eq!(drain(&mut m), pairs(&[("1", "a1")]));
}

#[test]
fn test_two_merge_of_merges() {
    let m1 = MergeIterator::create(vec![Box::new(source(&[("a", "1"), ("c", "1")]))]);
    let m2 = MergeIterator::create(vec![Box::new(source(&[("b", "2"), ("c", "2")]))]);
    let mut m = TwoMergeIterator::create(m1, m2).unwrap();
    assert_eq!(drain(&mut m), pairs(&[("a", "1"), ("b", "2"), ("c", "1")]));
}

#[test]
fn test_merge_empty_sentinels() {
    let m: MergeIterator<BlockIterator> = MergeIterator::create(Vec::new());
    assert!(!m.is_valid());
    assert_eq!(m.key(), b"");
    assert_eq!(m.value(), b"");
    let m = MergeIterator::create(vec![Box::new(empty_source()), Box::new(empty_source())]);
    assert!(!m.is_valid());
}
