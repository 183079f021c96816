use std::sync::Arc;

use mini_lsm::block::builder::BlockBuilder;
use mini_lsm::block::iterator::BlockIterator;
use mini_lsm::block::Block;
use mini_lsm::error::StorageError;
use mini_lsm::key::{KeySlice, KeyVec, Order};

fn two_entries() -> Block {
    let mut builder = BlockBuilder::new(10_000);
    assert!(builder.is_empty());
    assert!(builder.add(KeySlice::from_slice(b"abc", 5), b"v1"));
    assert!(builder.add(KeySlice::from_slice(b"abd", 4), b""));
    assert!(!builder.is_empty());
    builder.build()
}

fn collect(mut it: BlockIterator) -> Vec<(Vec<u8>, u64, Vec<u8>)> {
    let mut out = Vec::new();
    while it.is_valid() {
        out.push((it.key().key_ref().to_vec(), it.key().ts(), it.value().to_vec()));
        it.next();
    }
    out
}

#[test]
fn block_bytes_are_exact() {
    let expected: Vec<u8> = vec![
        0, 0, 0, 3, b'a', b'b', b'c', 0, 0, 0, 0, 0, 0, 0, 5, 0, 2, b'v', b'1', // first entry
        0, 2, 0, 1, b'd', 0, 0, 0, 0, 0, 0, 0, 4, 0, 0, // second entry
        0, 0, 0, 19, 0, 2, // offsets and their number
    ];
    assert_eq!(two_entries().encode(), expected);
}

#[test]
fn block_is_read_back() {
    let bytes = two_entries().encode();
    let block = Block::decode(&bytes).unwrap();
    assert_eq!(block.encode(), bytes);
    let it = BlockIterator::create_and_seek_to_first(Arc::new(block));
    assert_eq!(
        collect(it),
        vec![(b"abc".to_vec(), 5, b"v1".to_vec()), (b"abd".to_vec(), 4, Vec::new())]
    );
}

#[test]
fn block_refuses_bytes_of_no_block() {
    for raw in [&b""[..], &b"\x00"[..], &b"\x00\x05"[..], &b"\x00\x00\x00\x01"[..]] {
        assert!(matches!(Block::decode(raw), Err(StorageError::CorruptBlock)));
    }
    let empty = Block::decode(&[0, 0]).unwrap();
    let it = BlockIterator::create_and_seek_to_first(Arc::new(empty));
    assert!(!it.is_valid());
}

#[test]
fn decoded_block_keeps_its_bytes() {
    // No entries, and bytes that no offset leads to.
    for bytes in [vec![0, 0], vec![9, 9, 0, 0]] {
        assert_eq!(Block::decode(&bytes).unwrap().encode(), bytes);
    }
    // The same entry twice.
    let mut bytes = two_entries().encode();
    let at = bytes.len() - 6;
    bytes[at + 2..at + 4].copy_from_slice(&[0, 0]);
    let block = Block::decode(&bytes).unwrap();
    assert_eq!(block.encode(), bytes);
    let found = collect(BlockIterator::create_and_seek_to_first(Arc::new(block)));
    assert_eq!(found, vec![(b"abc".to_vec(), 5, b"v1".to_vec()); 2]);
}

#[test]
fn full_block_takes_no_more() {
    // An empty block takes an entry of any size.
    let mut builder = BlockBuilder::new(16);
    assert!(builder.add(KeySlice::from_slice(b"a-long-key", 1), &[7; 100]));
    assert!(!builder.add(KeySlice::from_slice(b"b", 1), b""));
    // 2 + 2 + 16 bytes are taken, the next entry counts 1 + 1 + 14.
    let mut exact = BlockBuilder::new(36);
    assert!(exact.add(KeySlice::from_slice(b"a", 1), b"x"));
    assert!(exact.add(KeySlice::from_slice(b"b", 1), b"y"));
    let mut tight = BlockBuilder::new(35);
    assert!(tight.add(KeySlice::from_slice(b"a", 1), b"x"));
    assert!(!tight.add(KeySlice::from_slice(b"b", 1), b"y"));
}

#[test]
fn block_seek_finds_first_key_not_before() {
    let mut builder = BlockBuilder::new(10_000);
    for (k, ts) in [(b"b", 9), (b"b", 3), (b"d", 5)] {
        assert!(builder.add(KeySlice::from_slice(k, ts), b"x"));
    }
    let block = Arc::new(builder.build());
    let seek = |k: &[u8], ts: u64| {
        let it = BlockIterator::create_and_seek_to_key(block.clone(), KeySlice::from_slice(k, ts));
        collect(it).iter().map(|e| (e.0.clone(), e.1)).collect::<Vec<_>>()
    };
    assert_eq!(seek(b"a", 1).len(), 3);
    assert_eq!(seek(b"b", u64::MAX).len(), 3);
    assert_eq!(seek(b"b", 8), vec![(b"b".to_vec(), 3), (b"d".to_vec(), 5)]);
    assert_eq!(seek(b"b", 2), vec![(b"d".to_vec(), 5)]);
    assert!(seek(b"d", 4).is_empty());
    let mut it = BlockIterator::create_and_seek_to_key(block.clone(), KeySlice::from_slice(b"z", 0));
    assert!(!it.is_valid());
    assert!(it.key().key_ref().is_empty());
    it.next();
    assert!(!it.is_valid());
    it.seek_to_first();
    assert_eq!(it.key().ts(), 9);
    it.seek_to_key(KeySlice::from_slice(b"c", 0));
    assert_eq!(it.key().key_ref(), b"d");
    assert_eq!(it.value(), b"x");
}

#[test]
fn keys_order_by_bytes_then_newest_first() {
    let a = KeySlice::from_slice(b"a", 1);
    assert_eq!(a.order(KeySlice::from_slice(b"b", 9)), Order::Less);
    assert_eq!(a.order(KeySlice::from_slice(b"a", 9)), Order::Greater);
    assert_eq!(a.order(KeySlice::from_slice(b"a", 0)), Order::Less);
    assert_eq!(a.order(KeySlice::from_slice(b"a", 1)), Order::Equal);
    assert_eq!(a.order(KeySlice::from_slice(b"", 1)), Order::Greater);
    assert!(KeySlice::from_slice(b"a", 1).precedes(KeySlice::from_slice(b"ab", 1)));
    let mut k = KeyVec::new();
    assert!(k.is_empty());
    k.set_from_slice(KeySlice::from_slice(b"key", 3));
    assert_eq!(k, KeyVec::from_vec_with_ts(b"key".to_vec(), 3));
    assert!(k.as_key_slice().same_as(KeySlice::from_slice(b"key", 3)));
}
