use std::collections::HashMap;
use std::sync::Arc;

use mini_lsm::error::StorageError;
use mini_lsm::iterators::concat_iterator::SstConcatIterator;
use mini_lsm::iterators::StorageIterator;
use mini_lsm::key::{KeySlice, KeyVec};
use mini_lsm::table::bloom::{Bloom, BITS_PER_KEY};
use mini_lsm::table::builder::SsTableBuilder;
use mini_lsm::table::iterator::SsTableIterator;
use mini_lsm::table::{BlockMeta, FileObject, SsTable};

fn key_of(i: usize) -> Vec<u8> {
    format!("key_{:03}", i * 5).into_bytes()
}

fn value_of(i: usize) -> Vec<u8> {
    format!("value_{:010}", i).into_bytes()
}

fn table_of(id: usize, from: usize, to: usize) -> SsTable {
    let mut builder = SsTableBuilder::new(128);
    assert!(builder.is_empty());
    for i in from..to {
        builder.add(KeySlice::from_slice(&key_of(i), (i % 7) as u64), &value_of(i));
    }
    builder.build(id)
}

fn bytes_of(table: &SsTable) -> Vec<u8> {
    table.file().contents().unwrap().clone()
}

fn reopen(bytes: Vec<u8>) -> Result<SsTable, StorageError> {
    SsTable::open(9, FileObject::from_bytes(bytes))
}

fn drain<I: StorageIterator>(it: &mut I) -> Vec<(Vec<u8>, u64, Vec<u8>)> {
    let mut out = Vec::new();
    while it.is_valid() {
        out.push((it.key().key_ref().to_vec(), it.key().ts(), it.value().to_vec()));
        it.next().unwrap();
    }
    out
}

#[test]
fn built_table_is_opened_as_it_was() {
    let table = table_of(4, 0, 100);
    assert!(table.num_of_blocks() > 1);
    let again = reopen(bytes_of(&table)).unwrap();
    assert_eq!(table.sst_id(), 4);
    assert_eq!(again.sst_id(), 9);
    assert_eq!(again.num_of_blocks(), table.num_of_blocks());
    assert_eq!(again.first_key(), &KeyVec::from_vec_with_ts(key_of(0), 0));
    assert_eq!(again.last_key(), &KeyVec::from_vec_with_ts(key_of(99), 1));
    assert_eq!(again.max_ts(), 6);
    assert_eq!(again.table_size(), bytes_of(&table).len() as u64);
    assert_eq!(again.file().size(), again.table_size());
}

#[test]
fn built_table_hands_out_what_was_added() {
    let table = Arc::new(reopen(bytes_of(&table_of(1, 0, 100))).unwrap());
    let mut it = SsTableIterator::create_and_seek_to_first(table.clone()).unwrap();
    let all = drain(&mut it);
    assert_eq!(all.len(), 100);
    for (i, e) in all.iter().enumerate() {
        assert_eq!(e, &(key_of(i), (i % 7) as u64, value_of(i)));
    }
    it.seek_to_first().unwrap();
    assert_eq!(it.key().key_ref(), key_of(0).as_slice());
    assert_eq!(it.num_active_iterators(), 1);
}

#[test]
fn table_seek_finds_every_key_and_gap() {
    let table = Arc::new(table_of(1, 0, 100));
    for i in 0..100usize {
        let key = key_of(i);
        let at = KeySlice::from_slice(&key, u64::MAX);
        let mut it = SsTableIterator::create_and_seek_to_key(table.clone(), at).unwrap();
        assert_eq!(it.key().key_ref(), key.as_slice());
        assert_eq!(drain(&mut it).len(), 100 - i);
        let gap = format!("key_{:03}", i * 5 + 1).into_bytes();
        it.seek_to_key(KeySlice::from_slice(&gap, u64::MAX)).unwrap();
        assert_eq!(drain(&mut it).len(), 99 - i);
    }
    let it =
        SsTableIterator::create_and_seek_to_key(table, KeySlice::from_slice(b"z", 0)).unwrap();
    assert!(!it.is_valid());
}

#[test]
fn find_block_idx_is_the_last_block_that_starts_by_the_key() {
    let table = table_of(1, 0, 50);
    assert_eq!(table.find_block_idx(KeySlice::from_slice(b"a", 0)), 0);
    assert_eq!(table.find_block_idx(KeySlice::from_slice(b"z", 0)), table.num_of_blocks() - 1);
    let meta_only = SsTable::create_meta_only(
        3,
        77,
        KeyVec::from_vec_with_ts(b"a".to_vec(), 1),
        KeyVec::from_vec_with_ts(b"b".to_vec(), 2),
    );
    assert_eq!(meta_only.find_block_idx(KeySlice::from_slice(b"a", 0)), 0);
    assert_eq!(meta_only.table_size(), 77);
    assert_eq!(meta_only.num_of_blocks(), 0);
    assert_eq!(meta_only.max_ts(), 0);
    assert!(meta_only.bloom().is_none());
    assert!(meta_only.file().contents().is_none());
}

#[test]
fn estimated_size_counts_finished_blocks_with_checksums() {
    let mut builder = SsTableBuilder::new(40);
    assert_eq!(builder.estimated_size(), 0);
    builder.add(KeySlice::from_slice(b"a", 1), b"x");
    builder.add(KeySlice::from_slice(b"b", 1), b"y");
    assert_eq!(builder.estimated_size(), 0);
    builder.add(KeySlice::from_slice(b"c", 1), b"z");
    // Two entries of 16 bytes, two offsets, their number, and the checksum.
    assert_eq!(builder.estimated_size(), 16 + 16 + 4 + 2 + 4);
    let table = builder.build(0);
    assert_eq!(table.num_of_blocks(), 2);
    assert_eq!(table.first_key(), &KeyVec::from_vec_with_ts(b"a".to_vec(), 1));
    assert_eq!(table.last_key(), &KeyVec::from_vec_with_ts(b"c".to_vec(), 1));
}

#[test]
fn estimated_size_grows_when_a_block_ends() {
    let mut builder = SsTableBuilder::new(64);
    let mut sizes = vec![builder.estimated_size()];
    for i in 0..50 {
        builder.add(KeySlice::from_slice(&key_of(i), 1), &value_of(i));
        sizes.push(builder.estimated_size());
    }
    assert!(sizes.windows(2).all(|w| w[0] <= w[1]));
    let grown = sizes.windows(2).filter(|w| w[0] < w[1]).count();
    assert_eq!(builder.build(1).num_of_blocks(), grown + 1);
}

#[test]
fn block_checksum_is_the_crc_of_the_block() {
    let mut builder = SsTableBuilder::new(4096);
    builder.add(KeySlice::from_slice(b"a", 1), b"x");
    let bytes = bytes_of(&builder.build(0));
    let block: Vec<u8> = vec![
        0, 0, 0, 1, b'a', 0, 0, 0, 0, 0, 0, 0, 1, 0, 1, b'x', 0, 0, 0, 1,
    ];
    assert_eq!(&bytes[..20], block.as_slice());
    assert_eq!(&bytes[20..24], crc32fast::hash(&block).to_be_bytes().as_slice());
    assert_eq!(&bytes[24..28], &[0, 0, 0, 1]);
    let trailer = &bytes[bytes.len() - 8..];
    assert_eq!(&trailer[..4], &[0, 0, 0, 24]);
}

#[test]
fn block_meta_is_read_back() {
    let metas = vec![
        BlockMeta {
            offset: 0,
            first_key: KeyVec::from_vec_with_ts(b"a".to_vec(), 3),
            last_key: KeyVec::from_vec_with_ts(b"bb".to_vec(), 2),
        },
        BlockMeta {
            offset: 300,
            first_key: KeyVec::from_vec_with_ts(b"c".to_vec(), 9),
            last_key: KeyVec::from_vec_with_ts(b"d".to_vec(), 1),
        },
    ];
    let mut buf = vec![42];
    BlockMeta::encode_block_meta(&metas, 9, &mut buf);
    assert_eq!(buf[0], 42);
    let section = &buf[1..];
    assert_eq!(&section[..4], &[0, 0, 0, 2]);
    let sum = crc32fast::hash(&section[4..section.len() - 4]);
    assert_eq!(&section[section.len() - 4..], sum.to_be_bytes().as_slice());
    let (again, max_ts) = BlockMeta::decode_block_meta(section).unwrap();
    assert_eq!(again, metas);
    assert_eq!(max_ts, 9);
}

#[test]
fn block_meta_errors() {
    let mut buf = Vec::new();
    BlockMeta::encode_block_meta(&[], 7, &mut buf);
    assert_eq!(BlockMeta::decode_block_meta(&buf).unwrap().1, 7);
    assert_eq!(BlockMeta::decode_block_meta(&buf[..7]), Err(StorageError::CorruptMeta));
    let mut flipped = buf.clone();
    flipped[5] ^= 1;
    assert_eq!(BlockMeta::decode_block_meta(&flipped), Err(StorageError::MetaChecksumMismatch));
    // The checksum does not cover the number of blocks.
    let mut more = buf.clone();
    more[3] = 1;
    assert_eq!(BlockMeta::decode_block_meta(&more), Err(StorageError::CorruptMeta));
}

#[test]
fn file_reads_inside_only() {
    let file = FileObject::from_bytes(vec![1, 2, 3, 4]);
    assert_eq!(file.read(1, 2), Ok(vec![2, 3]));
    assert_eq!(file.read(4, 0), Ok(vec![]));
    assert_eq!(file.read(3, 2), Err(StorageError::ReadOutOfRange));
    assert_eq!(file.read(u64::MAX, 1), Err(StorageError::ReadOutOfRange));
    assert_eq!(file.size(), 4);
}

fn open_error(bytes: Vec<u8>) -> StorageError {
    match reopen(bytes) {
        Ok(_) => panic!("the table was opened"),
        Err(e) => e,
    }
}

#[test]
fn open_errors() {
    let good = bytes_of(&table_of(1, 0, 10));
    let n = good.len();
    assert_eq!(open_error(vec![0; 7]), StorageError::CorruptTable);
    // The filter would begin before the metadata.
    let mut swapped = good.clone();
    swapped[n - 8] = 0xff;
    assert_eq!(open_error(swapped), StorageError::CorruptTable);
    // The filter would begin behind the end of the file.
    let mut far = good.clone();
    far[n - 4] = 0xff;
    assert_eq!(open_error(far), StorageError::ReadOutOfRange);
    let meta_offset = u32::from_be_bytes(good[n - 8..n - 4].try_into().unwrap()) as usize;
    let bloom_offset = u32::from_be_bytes(good[n - 4..].try_into().unwrap()) as usize;
    let mut meta = good.clone();
    meta[meta_offset + 4] ^= 1;
    assert_eq!(open_error(meta), StorageError::MetaChecksumMismatch);
    let mut no_meta = good.clone();
    no_meta[n - 8..n - 4].copy_from_slice(&(bloom_offset as u32).to_be_bytes());
    assert_eq!(open_error(no_meta), StorageError::CorruptMeta);
    let mut bloom = good.clone();
    bloom[bloom_offset] ^= 1;
    assert_eq!(open_error(bloom), StorageError::BloomChecksumMismatch);
}

#[test]
fn damaged_block_is_reported() {
    let good = bytes_of(&table_of(1, 0, 100));
    let mut bad = good.clone();
    bad[10] ^= 1;
    let table = reopen(bad).unwrap();
    assert!(matches!(table.read_block(0), Err(StorageError::BlockChecksumMismatch)));
    assert!(table.read_block(1).is_ok());
    let table = Arc::new(table);
    assert!(SsTableIterator::create_and_seek_to_first(table.clone()).is_err());
    // A damaged later block ends the iteration with an error.
    let mut later = good.clone();
    let second = reopen(good).unwrap();
    let first_block = second.read_block(0).unwrap().encode().len() + 4;
    later[first_block + 2] ^= 1;
    let table = Arc::new(reopen(later).unwrap());
    let mut it = SsTableIterator::create_and_seek_to_first(table).unwrap();
    let mut last = Ok(());
    while it.is_valid() {
        last = it.next();
    }
    assert_eq!(last, Err(StorageError::BlockChecksumMismatch));
    assert!(!it.is_valid());
}

#[test]
fn cached_block_is_taken() {
    let table = table_of(1, 0, 100);
    let (block, fresh) = table.read_block_cached(1, None).unwrap();
    assert!(fresh);
    let (again, fresh) = table.read_block_cached(0, Some(block.clone())).unwrap();
    assert!(!fresh);
    assert!(Arc::ptr_eq(&block, &again));
}

#[test]
fn iterator_reads_through_its_cache() {
    let table = Arc::new(table_of(1, 0, 100));
    let blocks = table.num_of_blocks();
    assert!(blocks > 3);
    let all = drain(&mut SsTableIterator::create_and_seek_to_first(table.clone()).unwrap());
    // Without a cache no block is kept.
    let it = SsTableIterator::create_and_seek_to_first(table.clone()).unwrap();
    assert!(it.into_cache().is_none());
    // What is not in the cache is read and kept, what is in it stays the same block.
    let held = table.read_block(1).unwrap();
    let cache = HashMap::from([(1, held.clone())]);
    let mut it =
        SsTableIterator::create_and_seek_to_first_cached(table.clone(), Some(cache)).unwrap();
    assert_eq!(drain(&mut it), all);
    let cache = it.into_cache().unwrap();
    assert_eq!(cache.len(), blocks);
    assert!(Arc::ptr_eq(&cache[&1], &held));
    for (i, block) in &cache {
        assert_eq!(block.encode(), table.read_block(*i).unwrap().encode());
    }
    // A search reads the block that it ends in.
    let key = key_of(99);
    let key = KeySlice::from_slice(&key, u64::MAX);
    let it =
        SsTableIterator::create_and_seek_to_key_cached(table.clone(), key, Some(HashMap::new()))
            .unwrap();
    assert_eq!(it.key().key_ref(), &key_of(99)[..]);
    let cache = it.into_cache().unwrap();
    assert!(cache.contains_key(&(blocks - 1)));
    assert!(cache.len() <= 2);
    let mut it =
        SsTableIterator::create_and_seek_to_first_cached(table, Some(HashMap::new())).unwrap();
    it.seek_to_key(key).unwrap();
    assert_eq!(it.key().key_ref(), &key_of(99)[..]);
    assert!(it.into_cache().unwrap().contains_key(&0));
}

#[test]
fn empty_cache_does_not_hide_a_damaged_block() {
    let good = Arc::new(table_of(1, 0, 100));
    let mut bytes = bytes_of(&good);
    bytes[10] ^= 1;
    let bad = Arc::new(reopen(bytes).unwrap());
    assert!(SsTableIterator::create_and_seek_to_first_cached(bad, Some(HashMap::new())).is_err());
}

#[test]
fn bloom_has_exact_bits() {
    let h = 0x9e37_79b9u32;
    let bloom = Bloom::build_from_key_hashes(&[h], BITS_PER_KEY);
    let mut filter = vec![0u8; 8];
    let mut probe = h;
    for _ in 0..6 {
        let bit = (probe % 64) as usize;
        filter[bit / 8] |= 1 << (bit % 8);
        probe = probe.wrapping_add(h.rotate_left(15));
    }
    let mut buf = Vec::new();
    bloom.encode(&mut buf);
    let mut expected = filter.clone();
    expected.push(6);
    let sum = crc32fast::hash(&expected);
    expected.extend_from_slice(&sum.to_be_bytes());
    assert_eq!(buf, expected);
    assert!(bloom.may_contain(h));
    assert!(!bloom.may_contain(1));
}

#[test]
fn bloom_errors() {
    let bloom = Bloom::build_from_key_hashes(&[1, 2, 3], BITS_PER_KEY);
    let mut buf = Vec::new();
    bloom.encode(&mut buf);
    assert!(Bloom::decode(&buf).unwrap().may_contain(2));
    assert!(matches!(Bloom::decode(&buf[..4]), Err(StorageError::CorruptBloom)));
    buf[0] ^= 1;
    assert!(matches!(Bloom::decode(&buf), Err(StorageError::BloomChecksumMismatch)));
    // A filter with too many probes reports every key.
    let mut many = vec![0, 31];
    let sum = crc32fast::hash(&many);
    many.extend_from_slice(&sum.to_be_bytes());
    assert!(Bloom::decode(&many).unwrap().may_contain(12345));
}

#[test]
fn table_filter_reports_every_key() {
    let table = reopen(bytes_of(&table_of(1, 0, 100))).unwrap();
    let bloom = table.bloom().unwrap();
    for i in 0..100 {
        assert!(bloom.may_contain(farmhash::fingerprint32(&key_of(i))));
    }
    let misses = (1000..2000)
        .filter(|i| !bloom.may_contain(farmhash::fingerprint32(&key_of(*i))))
        .count();
    assert!(misses > 900);
}

#[test]
fn concat_joins_tables() {
    let tables = vec![
        Arc::new(table_of(1, 0, 30)),
        Arc::new(table_of(2, 30, 31)),
        Arc::new(table_of(3, 31, 60)),
    ];
    let mut it = SstConcatIterator::create_and_seek_to_first(tables).unwrap();
    assert_eq!(it.num_active_iterators(), 1);
    let all = drain(&mut it);
    assert_eq!(all.len(), 60);
    assert_eq!(all[59].0, key_of(59));
    assert!(!SstConcatIterator::create_and_seek_to_first(Vec::new()).unwrap().is_valid());
}
