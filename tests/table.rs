use mini_lsm::{BlockMeta, FileObject, LsmError, SsTable, SsTableBuilder, SsTableIterator};
use std::sync::Arc;

fn key_of(i: usize) -> Vec<u8> {
    format!("k{:02}", i).into_bytes()
}

fn value_of(i: usize) -> Vec<u8> {
    format!("v{:02}", i).into_bytes()
}

/// Keys `k00..k99` with values `v00..v99`; each record takes 12 bytes, so a
/// target of 50 bytes holds four records per block.
fn hundred_keys() -> SsTable {
    let mut b = SsTableBuilder::new(50);
    for i in 0..100 {
        b.add(&key_of(i), &value_of(i));
    }
    b.build(7).unwrap()
}

fn collect(it: &mut SsTableIterator) -> Vec<(Vec<u8>, Vec<u8>)> {
    let mut out = Vec::new();
    while it.is_valid() {
        out.push((it.key().to_vec(), it.value().to_vec()));
        it.next().unwrap();
    }
    out
}

fn letters(groups: &[&[u8]]) -> SsTable {
    // each record ("x", "1") takes 8 bytes: three of them fill 26 bytes
    let mut b = SsTableBuilder::new(26);
    for group in groups {
        for k in group.iter() {
            b.add(&[*k], b"1");
        }
    }
    b.build(1).unwrap()
}

#[test]
fn sst_round_trip_all_entries() {
    let table = hundred_keys();
    assert_eq!(table.num_of_blocks(), 25);
    assert_eq!(table.sst_id(), 7);
    let mut it = SsTableIterator::create_and_seek_to_first(Arc::new(table)).unwrap();
    let got = collect(&mut it);
    let want: Vec<_> = (0..100).map(|i| (key_of(i), value_of(i))).collect();
    assert_eq!(got, want);
}

#[test]
fn sst_seek_k37() {
    let table = Arc::new(hundred_keys());
    let mut it = SsTableIterator::create_and_seek_to_key(table, b"k37").unwrap();
    assert_eq!(it.key(), b"k37");
    let got: Vec<_> = collect(&mut it).into_iter().map(|(k, _)| k).collect();
    let want: Vec<_> = (37..100).map(key_of).collect();
    assert_eq!(got, want);
}

#[test]
fn sst_gap_seek() {
    let table = letters(&[b"abc", b"ghi"]);
    assert_eq!(table.num_of_blocks(), 2);
    let mut it = SsTableIterator::create_and_seek_to_key(Arc::new(table), b"e").unwrap();
    assert!(it.is_valid());
    assert_eq!(it.key(), b"g");
    let got: Vec<_> = collect(&mut it).into_iter().map(|(k, _)| k).collect();
    assert_eq!(got, vec![b"g".to_vec(), b"h".to_vec(), b"i".to_vec()]);
}

#[test]
fn sst_seek_edges() {
    let table = Arc::new(letters(&[b"abc", b"ghi"]));
    let it = SsTableIterator::create_and_seek_to_key(table.clone(), b"0").unwrap();
    assert_eq!(it.key(), b"a");
    let it = SsTableIterator::create_and_seek_to_key(table.clone(), b"z").unwrap();
    assert!(!it.is_valid());
    let it = SsTableIterator::create_and_seek_to_key(table.clone(), b"i").unwrap();
    assert_eq!(it.key(), b"i");
    let mut it = SsTableIterator::create_and_seek_to_key(table, b"c").unwrap();
    assert_eq!(it.key(), b"c");
    it.next().unwrap();
    assert_eq!(it.key(), b"g");
    it.seek_to_first().unwrap();
    assert_eq!(it.key(), b"a");
}

#[test]
fn sst_first_and_last_keys() {
    let table = hundred_keys();
    assert_eq!(table.first_key(), b"k00");
    assert_eq!(table.last_key(), b"k99");
}

#[test]
fn sst_find_block_idx() {
    let table = letters(&[b"abc", b"ghi"]);
    assert_eq!(table.find_block_idx(b"b"), 0);
    assert_eq!(table.find_block_idx(b"c"), 0);
    assert_eq!(table.find_block_idx(b"e"), 1);
    assert_eq!(table.find_block_idx(b"h"), 1);
    // outside the key range: clamped to 0
    assert_eq!(table.find_block_idx(b"z"), 0);
    assert_eq!(table.find_block_idx(b"0"), 0);
    assert_eq!(table.first_block_reaching(b"z"), 2);
}

#[test]
fn sst_read_block() {
    let table = letters(&[b"abc", b"ghi"]);
    let block = table.read_block(1).unwrap();
    assert_eq!(block.key_at(0), b"g".to_vec());
    let cached = table.read_block_cached(0).unwrap();
    assert_eq!(cached.key_at(2), b"c".to_vec());
}

#[test]
fn sst_file_layout_and_reopen() {
    let mut b = SsTableBuilder::new(4096);
    b.add(b"a", b"1");
    let bytes = b.finish();
    // block: record, one offset, count
    let block = vec![0, 1, b'a', 0, 1, b'1', 0, 0, 0, 1];
    // meta section: count, offset, first key, last key
    let meta = vec![0, 0, 0, 1, 0, 0, 0, 0, 0, 1, b'a', 0, 1, b'a'];
    let mut want = block.clone();
    want.extend_from_slice(&meta);
    want.extend_from_slice(&[0, 0, 0, 10]);
    assert_eq!(bytes, want);
    let table = SsTable::open(3, FileObject::new(bytes)).unwrap();
    assert_eq!(table.num_of_blocks(), 1);
    assert_eq!(table.table_size(), 28);
    assert_eq!(table.max_ts(), 0);
}

#[test]
fn sst_open_rejects_corruption() {
    assert!(matches!(SsTable::open(0, FileObject::new(vec![0, 0, 1])), Err(LsmError::Corruption)));
    // meta offset beyond the file
    assert!(matches!(SsTable::open(0, FileObject::new(vec![0, 0, 0, 9])), Err(LsmError::Corruption)));
    // meta count of one with no meta bytes
    assert!(matches!(
        SsTable::open(0, FileObject::new(vec![0, 0, 0, 1, 0, 0, 0, 0])),
        Err(LsmError::Corruption)
    ));
    // an empty meta section is a table with no blocks
    let empty = SsTable::open(0, FileObject::new(vec![0, 0, 0, 0, 0, 0, 0, 0])).unwrap();
    assert_eq!(empty.num_of_blocks(), 0);
    let it = SsTableIterator::create_and_seek_to_first(Arc::new(empty)).unwrap();
    assert!(!it.is_valid());
}

#[test]
fn sst_open_defers_block_checks() {
    let mut b = SsTableBuilder::new(4096);
    b.add(b"a", b"1");
    let mut bytes = b.finish();
    // the meta's first key no longer matches the block: open still succeeds
    bytes[20] = b'b';
    let table = SsTable::open(0, FileObject::new(bytes)).unwrap();
    assert!(!table.check_blocks());
    assert_eq!(table.first_key(), b"b");
    assert!(table.read_block(0).is_ok());
}

#[test]
fn sst_open_with_empty_block() {
    // block: no records, count 0; meta: one block at offset 0, keys "a".."a"
    let mut bytes = vec![0, 0];
    bytes.extend_from_slice(&[0, 0, 0, 1, 0, 0, 0, 0, 0, 1, b'a', 0, 1, b'a']);
    bytes.extend_from_slice(&[0, 0, 0, 2]);
    assert_eq!(bytes.len(), 20);
    let table = SsTable::open(4, FileObject::new(bytes)).unwrap();
    assert_eq!(table.num_of_blocks(), 1);
    assert_eq!(table.first_key(), b"a");
    assert_eq!(table.last_key(), b"a");
    assert!(!table.check_blocks());
    let block = table.read_block(0).unwrap();
    assert!(block.offsets.is_empty());
}

#[test]
fn sst_corrupt_block_surfaces_on_read() {
    let mut b = SsTableBuilder::new(4096);
    b.add(b"a", b"1");
    let mut bytes = b.finish();
    // the block's count now claims 5 offsets
    bytes[9] = 5;
    let table = SsTable::open(0, FileObject::new(bytes)).unwrap();
    assert!(matches!(table.read_block(0), Err(LsmError::Corruption)));
    let table = Arc::new(table);
    assert!(matches!(SsTableIterator::create_and_seek_to_first(table.clone()), Err(LsmError::Corruption)));
    assert!(matches!(SsTableIterator::create_and_seek_to_key(table, b"a"), Err(LsmError::Corruption)));
}

#[test]
fn sst_built_table_is_sound() {
    let table = hundred_keys();
    assert!(table.check_blocks());
}

#[test]
fn file_object_read() {
    let f = FileObject::new(vec![1, 2, 3, 4]);
    assert_eq!(f.size(), 4);
    assert_eq!(f.read(1, 2).unwrap(), vec![2, 3]);
    assert!(matches!(f.read(3, 2), Err(LsmError::Io)));
}

#[test]
fn meta_only_table() {
    let t = SsTable::create_meta_only(5, 1000, b"a".to_vec(), b"z".to_vec());
    assert_eq!(t.sst_id(), 5);
    assert_eq!(t.table_size(), 1000);
    assert_eq!(t.first_key(), b"a");
    assert_eq!(t.last_key(), b"z");
    assert_eq!(t.num_of_blocks(), 0);
}

#[test]
fn block_meta_round_trip() {
    let metas = vec![
        BlockMeta { offset: 0, first_key: b"a".to_vec(), last_key: b"c".to_vec() },
        BlockMeta { offset: 300, first_key: b"dd".to_vec(), last_key: b"e".to_vec() },
    ];
    let mut buf = vec![9];
    BlockMeta::encode_block_meta(&metas, &mut buf);
    assert_eq!(
        buf,
        vec![9, 0, 0, 0, 2, 0, 0, 0, 0, 0, 1, b'a', 0, 1, b'c', 0, 0, 1, 44, 0, 2, b'd', b'd', 0, 1, b'e']
    );
    assert_eq!(BlockMeta::decode_block_meta(&buf[1..]).unwrap(), metas);
    assert!(matches!(BlockMeta::decode_block_meta(&buf[1..buf.len() - 1]), Err(LsmError::Corruption)));
    let mut extra = buf[1..].to_vec();
    extra.push(0);
    assert!(matches!(BlockMeta::decode_block_meta(&extra), Err(LsmError::Corruption)));
}

#[test]
fn sst_blocks_are_ordered() {
    let table = hundred_keys();
    for i in 0..table.num_of_blocks() - 1 {
        let this = table.read_block(i).unwrap();
        let next = table.read_block(i + 1).unwrap();
        let last = this.key_at(this.offsets.len() - 1);
        let first = next.key_at(0);
        assert!(last < first);
    }
}
