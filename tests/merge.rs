use mini_lsm::{BlockBuilder, BlockIterator, MemTable, MemTableIterator, MergeIterator, StorageIterator};
use std::ops::Bound;
use std::sync::Arc;

fn source(pairs: &[(&[u8], &[u8])]) -> Box<MemTableIterator> {
    let mut t = MemTable::create(0);
    for (k, v) in pairs {
        t.put(k, v).unwrap();
    }
    Box::new(t.scan(Bound::Unbounded, Bound::Unbounded))
}

fn drain<I: StorageIterator>(mut it: MergeIterator<I>) -> Vec<(Vec<u8>, Vec<u8>)> {
    let mut out = Vec::new();
    while it.is_valid() {
        out.push((it.key().to_vec(), it.value().to_vec()));
        it.next().unwrap();
    }
    out
}

fn pairs(v: &[(&[u8], &[u8])]) -> Vec<(Vec<u8>, Vec<u8>)> {
    v.iter().map(|(k, v)| (k.to_vec(), v.to_vec())).collect()
}

#[test]
fn merge_priority() {
    let a = source(&[(b"x", b"1"), (b"y", b"2")]);
    let b = source(&[(b"x", b"9"), (b"z", b"3")]);
    let m = MergeIterator::create(vec![a, b]).unwrap();
    assert_eq!(drain(m), pairs(&[(b"x", b"1"), (b"y", b"2"), (b"z", b"3")]));
}

#[test]
fn merge_tombstone() {
    let a = source(&[(b"k", b"")]);
    let b = source(&[(b"k", b"v"), (b"m", b"w")]);
    let m = MergeIterator::create(vec![a, b]).unwrap();
    assert_eq!(drain(m), pairs(&[(b"m", b"w")]));
}

#[test]
fn merge_lower_priority_tombstone_is_overridden() {
    let a = source(&[(b"k", b"live")]);
    let b = source(&[(b"k", b""), (b"l", b"")]);
    let m = MergeIterator::create(vec![a, b]).unwrap();
    assert_eq!(drain(m), pairs(&[(b"k", b"live")]));
}

#[test]
fn merge_output_ascending_without_duplicates() {
    let a = source(&[(b"b", b"a1"), (b"d", b"a2"), (b"f", b"a3")]);
    let b = source(&[(b"a", b"b1"), (b"b", b"b2"), (b"f", b"b3"), (b"g", b"b4")]);
    let c = source(&[(b"b", b"c1"), (b"c", b"c2"), (b"g", b"c3")]);
    let m = MergeIterator::create(vec![a, b, c]).unwrap();
    let out = drain(m);
    assert_eq!(
        out,
        pairs(&[
            (b"a", b"b1"),
            (b"b", b"a1"),
            (b"c", b"c2"),
            (b"d", b"a2"),
            (b"f", b"a3"),
            (b"g", b"b4"),
        ])
    );
    for w in out.windows(2) {
        assert!(w[0].0 < w[1].0);
    }
}

#[test]
fn merge_empty_and_invalid_sources() {
    let m: MergeIterator<MemTableIterator> = MergeIterator::create(vec![]).unwrap();
    assert!(!m.is_valid());
    let a = source(&[]);
    let b = source(&[(b"q", b"1")]);
    let mut m = MergeIterator::create(vec![a, b]).unwrap();
    assert_eq!(m.key(), b"q");
    m.next().unwrap();
    assert!(!m.is_valid());
    m.next().unwrap();
    assert!(!m.is_valid());
}

#[test]
fn merge_over_block_iterators() {
    let mut b1 = BlockBuilder::new(4096);
    assert!(b1.add(b"a", b"1"));
    assert!(b1.add(b"c", b""));
    let mut b2 = BlockBuilder::new(4096);
    assert!(b2.add(b"b", b"2"));
    assert!(b2.add(b"c", b"3"));
    let i1 = Box::new(BlockIterator::create_and_seek_to_first(Arc::new(b1.build())));
    let i2 = Box::new(BlockIterator::create_and_seek_to_first(Arc::new(b2.build())));
    let m = MergeIterator::create(vec![i1, i2]).unwrap();
    assert_eq!(drain(m), pairs(&[(b"a", b"1"), (b"b", b"2")]));
}
