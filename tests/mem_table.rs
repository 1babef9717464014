use mini_lsm::{MemTable, SsTableBuilder, SsTableIterator, StorageIterator};
use std::ops::Bound;
use std::sync::Arc;

fn drain(mut it: impl StorageIterator) -> Vec<(Vec<u8>, Vec<u8>)> {
    let mut out = Vec::new();
    while it.is_valid() {
        out.push((it.key().to_vec(), it.value().to_vec()));
        it.next().unwrap();
    }
    out
}

#[test]
fn memtable_scan_inclusive() {
    let mut t = MemTable::create(1);
    t.put(b"a", b"1").unwrap();
    t.put(b"c", b"3").unwrap();
    t.put(b"b", b"2").unwrap();
    let it = t.scan(Bound::Included(b"a"), Bound::Included(b"c"));
    assert_eq!(
        drain(it),
        vec![
            (b"a".to_vec(), b"1".to_vec()),
            (b"b".to_vec(), b"2".to_vec()),
            (b"c".to_vec(), b"3".to_vec()),
        ]
    );
}

#[test]
fn memtable_scan_bounds() {
    let mut t = MemTable::create(1);
    for k in [b"a", b"b", b"c", b"d"] {
        t.put(k, b"x").unwrap();
    }
    let keys = |lo: Bound<&[u8]>, hi: Bound<&[u8]>| -> Vec<Vec<u8>> {
        drain(t.scan(lo, hi)).into_iter().map(|(k, _)| k).collect()
    };
    assert_eq!(keys(Bound::Excluded(b"a"), Bound::Excluded(b"d")), vec![b"b".to_vec(), b"c".to_vec()]);
    assert_eq!(keys(Bound::Unbounded, Bound::Excluded(b"b")), vec![b"a".to_vec()]);
    assert_eq!(keys(Bound::Included(b"c"), Bound::Unbounded), vec![b"c".to_vec(), b"d".to_vec()]);
    assert!(keys(Bound::Included(b"e"), Bound::Unbounded).is_empty());
}

#[test]
fn memtable_get_put_overwrite() {
    let mut t = MemTable::create(9);
    assert!(t.is_empty());
    assert_eq!(t.get(b"k"), None);
    t.put(b"k", b"v1").unwrap();
    t.for_testing_put_slice(b"k", b"v22").unwrap();
    assert_eq!(t.get(b"k"), Some(b"v22".to_vec()));
    assert_eq!(t.for_testing_get_slice(b"k"), Some(b"v22".to_vec()));
    assert!(!t.is_empty());
    assert_eq!(t.id(), 9);
    assert_eq!(t.approximate_size(), 3 + 4);
    assert!(t.sync_wal().is_ok());
    let it = t.for_testing_scan_slice(Bound::Unbounded, Bound::Unbounded);
    assert_eq!(drain(it), vec![(b"k".to_vec(), b"v22".to_vec())]);
}

#[test]
fn memtable_flush_to_table() {
    let mut t = MemTable::create(2);
    t.put(b"b", b"2").unwrap();
    t.put(b"a", b"1").unwrap();
    t.put(b"c", b"").unwrap();
    let mut builder = SsTableBuilder::new(4096);
    t.flush(&mut builder).unwrap();
    let table = builder.build(2).unwrap();
    let it = SsTableIterator::create_and_seek_to_first(Arc::new(table)).unwrap();
    assert_eq!(
        drain(it),
        vec![
            (b"a".to_vec(), b"1".to_vec()),
            (b"b".to_vec(), b"2".to_vec()),
            (b"c".to_vec(), b"".to_vec()),
        ]
    );
}

#[test]
fn memtable_flush_after_existing_entries() {
    let mut t = MemTable::create(3);
    t.put(b"c", b"3").unwrap();
    t.put(b"b", b"2").unwrap();
    let mut builder = SsTableBuilder::new(4096);
    builder.add(b"a", b"1");
    t.flush(&mut builder).unwrap();
    let table = builder.build(3).unwrap();
    let it = SsTableIterator::create_and_seek_to_first(Arc::new(table)).unwrap();
    let keys: Vec<Vec<u8>> = drain(it).into_iter().map(|(k, _)| k).collect();
    assert_eq!(keys, vec![b"a".to_vec(), b"b".to_vec(), b"c".to_vec()]);
}
