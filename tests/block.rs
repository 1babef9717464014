use mini_lsm::key::compare_keys;
use mini_lsm::{Block, BlockBuilder, BlockIterator, LsmError};
use std::cmp::Ordering;
use std::sync::Arc;

fn collect(mut it: BlockIterator) -> Vec<(Vec<u8>, Vec<u8>)> {
    let mut out = Vec::new();
    while it.is_valid() {
        out.push((it.key().to_vec(), it.value().to_vec()));
        it.next();
    }
    out
}

#[test]
fn block_round_trip_three_fruits() {
    let mut b = BlockBuilder::new(4096);
    assert!(b.add(b"apple", b"red"));
    assert!(b.add(b"banana", b"yellow"));
    assert!(b.add(b"cherry", b"deep-red"));
    let encoded = b.build().encode();
    let block = Block::decode(&encoded).unwrap();
    let got = collect(BlockIterator::create_and_seek_to_first(Arc::new(block)));
    assert_eq!(
        got,
        vec![
            (b"apple".to_vec(), b"red".to_vec()),
            (b"banana".to_vec(), b"yellow".to_vec()),
            (b"cherry".to_vec(), b"deep-red".to_vec()),
        ]
    );
}

#[test]
fn block_encoding_is_big_endian() {
    let mut b = BlockBuilder::new(4096);
    assert!(b.add(b"a", b"1"));
    assert!(b.add(b"bc", b""));
    let bytes = b.build().encode();
    assert_eq!(
        bytes,
        vec![0, 1, b'a', 0, 1, b'1', 0, 2, b'b', b'c', 0, 0, 0, 0, 0, 6, 0, 2]
    );
}

#[test]
fn block_builder_size_limit() {
    let mut b = BlockBuilder::new(20);
    assert_eq!(b.estimated_size(), 2);
    assert!(b.add(b"key1", b"value1"));
    assert_eq!(b.estimated_size(), 2 + 6 + 4 + 6);
    assert!(!b.add(b"key2", b"v"));
    assert_eq!(b.estimated_size(), 18);
}

#[test]
fn block_builder_first_entry_always_accepted() {
    let mut b = BlockBuilder::new(4);
    assert!(b.is_empty());
    assert!(b.add(b"a-long-key", b"a-long-value"));
    assert!(!b.add(b"b", b""));
    assert_eq!(b.first_key(), b"a-long-key");
    assert_eq!(b.last_key(), b"a-long-key");
}

#[test]
fn block_decode_rejects_inconsistent_lengths() {
    assert!(matches!(Block::decode(&[1]), Err(LsmError::Corruption)));
    assert!(matches!(Block::decode(&[0, 5]), Err(LsmError::Corruption)));
    // one offset pointing past the payload
    assert!(matches!(Block::decode(&[0, 9, 0, 1]), Err(LsmError::Corruption)));
    // an empty key
    assert!(matches!(Block::decode(&[0, 0, 0, 0, 0, 0, 0, 1]), Err(LsmError::Corruption)));
    let empty = Block::decode(&[0, 0]).unwrap();
    assert!(empty.offsets.is_empty());
}

#[test]
fn block_seek_to_key() {
    let mut b = BlockBuilder::new(4096);
    for k in [b"b".as_ref(), b"d", b"f"] {
        assert!(b.add(k, b"v"));
    }
    let block = Arc::new(b.build());
    let it = BlockIterator::create_and_seek_to_key(block.clone(), b"c");
    assert_eq!(it.key(), b"d");
    let it = BlockIterator::create_and_seek_to_key(block.clone(), b"d");
    assert_eq!(it.key(), b"d");
    let it = BlockIterator::create_and_seek_to_key(block.clone(), b"a");
    assert_eq!(it.key(), b"b");
    let it = BlockIterator::create_and_seek_to_key(block.clone(), b"g");
    assert!(!it.is_valid());
    let mut it = BlockIterator::create_and_seek_to_first(block);
    it.seek_to_key(b"e");
    assert_eq!(it.key(), b"f");
    it.next();
    assert!(!it.is_valid());
    it.next();
    assert!(!it.is_valid());
    it.seek_to_first();
    assert_eq!(it.key(), b"b");
}

#[test]
fn block_keys_ascending_check() {
    let mut b = BlockBuilder::new(4096);
    assert!(b.add(b"a", b"1"));
    assert!(b.add(b"b", b"2"));
    let block = b.build();
    assert!(block.keys_ascending());
    assert_eq!(block.key_at(1), b"b".to_vec());
    // swap the two offsets: still decodable, no longer sorted
    let swapped = Block { data: block.data.clone(), offsets: vec![block.offsets[1], block.offsets[0]] };
    assert!(!swapped.keys_ascending());
}

#[test]
fn compare_keys_lexicographic() {
    assert_eq!(compare_keys(b"a", b"b"), Ordering::Less);
    assert_eq!(compare_keys(b"ab", b"a"), Ordering::Greater);
    assert_eq!(compare_keys(b"", b"a"), Ordering::Less);
    assert_eq!(compare_keys(b"abc", b"abc"), Ordering::Equal);
    assert_eq!(compare_keys(&[0xff], &[0x01, 0x02]), Ordering::Greater);
}

#[test]
fn block_encoding_of_three_fruits() {
    let mut b = BlockBuilder::new(4096);
    assert!(b.add(b"apple", b"red"));
    assert!(b.add(b"banana", b"yellow"));
    assert!(b.add(b"cherry", b"deep-red"));
    let r = b.build().encode();
    assert_eq!(r.len(), 54);
    let mut first = vec![0, 5];
    first.extend_from_slice(b"apple");
    first.extend_from_slice(&[0, 3]);
    first.extend_from_slice(b"red");
    assert_eq!(&r[0..12], &first[..]);
    assert_eq!(&r[12..14], &[0, 6]);
    assert_eq!(&r[28..30], &[0, 6]);
    assert_eq!(&r[46..54], &[0, 0, 0, 12, 0, 28, 0, 3]);
}
