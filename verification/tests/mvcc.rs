use std::collections::HashSet;
use std::sync::Arc;

use mini_lsm::iterators::StorageIterator;
use mini_lsm::iterators::merge_iterator::MergeIterator;
use mini_lsm::key::KeySlice;
use mini_lsm::lsm_iterator::{Bound, FusedIterator, LsmIterator};
use mini_lsm::mvcc::txn::{Transaction, TxnError, TxnLocalIterator, WriteBatchRecord};
use mini_lsm::mvcc::watermark::Watermark;
use mini_lsm::mvcc::{CommittedTxnData, LsmMvccInner};
use mini_lsm::table::builder::SsTableBuilder;
use mini_lsm::table::iterator::SsTableIterator;

fn put(k: &str, v: &str) -> WriteBatchRecord {
    WriteBatchRecord::Put(k.as_bytes().to_vec(), v.as_bytes().to_vec())
}

fn del(k: &str) -> WriteBatchRecord {
    WriteBatchRecord::Del(k.as_bytes().to_vec())
}

/// Commits and records the commit as the storage does.
fn commit(txn: &mut Transaction, mvcc: &mut LsmMvccInner) -> Result<Vec<WriteBatchRecord>, TxnError> {
    let batch = txn.commit(mvcc)?;
    if !batch.is_empty() {
        let ts = mvcc.next_commit_ts();
        txn.record_commit(mvcc, ts);
    }
    Ok(batch)
}

fn stored(rows: &[(&str, u64, &str)], read_ts: u64) -> FusedIterator<LsmIterator<SsTableIterator>> {
    let mut builder = SsTableBuilder::new(4096);
    for (k, ts, v) in rows {
        builder.add(KeySlice::from_slice(k.as_bytes(), *ts), v.as_bytes());
    }
    let table = Arc::new(builder.build(0));
    let iter = SsTableIterator::create_and_seek_to_first(table).unwrap();
    FusedIterator::new(LsmIterator::new(iter, Bound::Unbounded, read_ts).unwrap())
}

#[test]
fn watermark_is_the_lowest_reader() {
    let mut w = Watermark::new();
    assert_eq!(w.watermark(), None);
    w.add_reader(5);
    w.add_reader(3);
    w.add_reader(3);
    w.add_reader(7);
    assert_eq!(w.watermark(), Some(3));
    assert_eq!(w.num_retained_snapshots(), 3);
    w.remove_reader(3);
    assert_eq!(w.watermark(), Some(3));
    w.remove_reader(3);
    assert_eq!(w.watermark(), Some(5));
    w.remove_reader(5);
    w.remove_reader(7);
    assert_eq!(w.watermark(), None);
    assert_eq!(w.num_retained_snapshots(), 0);
}

#[test]
fn storage_watermark_follows_transactions() {
    let mut mvcc = LsmMvccInner::new(10);
    assert_eq!(mvcc.latest_commit_ts(), 10);
    assert_eq!(mvcc.watermark(), 10);
    let old = mvcc.new_txn(false);
    assert_eq!(old.read_ts(), 10);
    assert_eq!(mvcc.next_commit_ts(), 11);
    let new = mvcc.new_txn(false);
    assert_eq!(new.read_ts(), 11);
    assert_eq!(mvcc.watermark(), 10);
    old.release(&mut mvcc);
    assert_eq!(mvcc.watermark(), 11);
    assert_eq!(mvcc.next_commit_ts(), 12);
    new.release(&mut mvcc);
    assert_eq!(mvcc.watermark(), 12);
}

#[test]
fn transaction_reads_its_own_writes() {
    let mut mvcc = LsmMvccInner::new(0);
    let mut txn = mvcc.new_txn(false);
    assert_eq!(txn.get(b"a", Some(b"old".to_vec())), Some(b"old".to_vec()));
    assert_eq!(txn.get(b"a", None), None);
    txn.put(b"a", b"new");
    assert_eq!(txn.get(b"a", Some(b"old".to_vec())), Some(b"new".to_vec()));
    assert_eq!(txn.get_local(b"a"), Some(Some(b"new".to_vec())));
    txn.delete(b"a");
    assert_eq!(txn.get(b"a", Some(b"old".to_vec())), None);
    assert_eq!(txn.get_local(b"a"), Some(None));
    assert_eq!(txn.get_local(b"b"), None);
}

#[test]
fn commit_gives_the_writes_in_key_order() {
    let mut mvcc = LsmMvccInner::new(0);
    let mut txn = mvcc.new_txn(true);
    txn.put(b"c", b"3");
    txn.put(b"a", b"1");
    txn.delete(b"b");
    txn.put(b"a", b"2");
    assert_eq!(txn.commit(&mvcc), Ok(vec![put("a", "2"), del("b"), put("c", "3")]));
    assert_eq!(txn.commit(&mvcc), Err(TxnError::AlreadyCommitted));
    let mut empty = mvcc.new_txn(true);
    assert_eq!(empty.commit(&mvcc), Ok(Vec::new()));
    assert_eq!(empty.commit(&mvcc), Err(TxnError::AlreadyCommitted));
}

#[test]
fn write_skew_is_refused() {
    let mut mvcc = LsmMvccInner::new(0);
    let mut t1 = mvcc.new_txn(true);
    let mut t2 = mvcc.new_txn(true);
    t1.get(b"a", Some(b"1".to_vec()));
    t1.put(b"b", b"1");
    t2.get(b"b", Some(b"2".to_vec()));
    t2.put(b"a", b"2");
    assert_eq!(commit(&mut t1, &mut mvcc), Ok(vec![put("b", "1")]));
    assert_eq!(commit(&mut t2, &mut mvcc), Err(TxnError::Conflict));
    // What was refused counts as committed.
    assert_eq!(commit(&mut t2, &mut mvcc), Err(TxnError::AlreadyCommitted));
    // One that begins now sees the commit, and reads of it are no conflict.
    let mut t3 = mvcc.new_txn(true);
    assert_eq!(t3.read_ts(), 1);
    t3.get(b"b", Some(b"1".to_vec()));
    t3.put(b"a", b"2");
    assert!(commit(&mut t3, &mut mvcc).is_ok());
}

#[test]
fn readers_conflict_though_they_write_nothing() {
    let mut mvcc = LsmMvccInner::new(0);
    let mut t1 = mvcc.new_txn(true);
    let mut t2 = mvcc.new_txn(true);
    let mut t3 = mvcc.new_txn(true);
    let mut t4 = mvcc.new_txn(false);
    let mut t5 = mvcc.new_txn(true);
    t1.put(b"a", b"1");
    t2.put(b"a", b"2");
    t3.get(b"a", None);
    t4.get(b"a", None);
    t4.put(b"b", b"4");
    t5.get(b"c", None);
    assert!(commit(&mut t1, &mut mvcc).is_ok());
    // A blind write is no conflict.
    assert!(commit(&mut t2, &mut mvcc).is_ok());
    // A read of what was written is, though nothing is to be stored.
    assert_eq!(commit(&mut t3, &mut mvcc), Err(TxnError::Conflict));
    // Only serializable transactions are checked.
    assert!(commit(&mut t4, &mut mvcc).is_ok());
    assert_eq!(commit(&mut t5, &mut mvcc), Ok(Vec::new()));
}

#[test]
fn committed_transaction_writes_nothing_more() {
    for serializable in [false, true] {
        let mut mvcc = LsmMvccInner::new(0);
        let mut txn = mvcc.new_txn(serializable);
        let mut reader = mvcc.new_txn(true);
        txn.put(b"a", b"1");
        assert_eq!(txn.commit(&mvcc), Ok(vec![put("a", "1")]));
        txn.put(b"a", b"2");
        txn.put(b"b", b"2");
        txn.delete(b"a");
        assert_eq!(txn.get_local(b"a"), Some(Some(b"1".to_vec())));
        assert_eq!(txn.get_local(b"b"), None);
        let commit_ts = mvcc.next_commit_ts();
        txn.record_commit(&mut mvcc, commit_ts);
        // What was written too late is not checked against either.
        reader.get(b"b", None);
        assert_eq!(reader.commit(&mvcc), Ok(Vec::new()));
    }
}

#[test]
fn commits_are_known_by_the_fingerprint_of_their_keys() {
    let mut mvcc = LsmMvccInner::new(0);
    let mut txn = mvcc.new_txn(true);
    txn.put(b"key", b"1");
    assert!(commit(&mut txn, &mut mvcc).is_ok());
    let mut reads = HashSet::new();
    assert!(!mvcc.has_conflict(0, &reads));
    reads.insert(farmhash::fingerprint32(b"key"));
    assert!(mvcc.has_conflict(0, &reads));
    assert!(!mvcc.has_conflict(1, &reads));
}

#[test]
fn commits_below_the_watermark_are_forgotten() {
    let mut mvcc = LsmMvccInner::new(0);
    let reads = HashSet::from([1u32, 2, 3]);
    let data = |hash: u32, commit_ts: u64| CommittedTxnData {
        key_hashes: HashSet::from([hash]),
        read_ts: 0,
        commit_ts,
    };
    let reader = mvcc.new_txn(false);
    assert_eq!(mvcc.next_commit_ts(), 1);
    mvcc.record_commit(data(1, 1));
    assert!(mvcc.has_conflict(0, &reads));
    reader.release(&mut mvcc);
    assert_eq!(mvcc.next_commit_ts(), 2);
    mvcc.record_commit(data(9, 2));
    // The watermark is 2 now: the first commit is gone, the second stays.
    assert!(!mvcc.has_conflict(0, &reads));
    assert!(mvcc.has_conflict(1, &HashSet::from([9u32])));
}

const STORED: &[(&str, u64, &str)] = &[("a", 1, "A"), ("c", 1, "C"), ("d", 1, "D"), ("e", 9, "E")];

fn scan_all(txn: &mut Transaction) -> Vec<(String, String)> {
    let read_ts = txn.read_ts();
    let mut it =
        txn.scan(&Bound::Unbounded, &Bound::Unbounded, stored(STORED, read_ts)).unwrap();
    let mut out = Vec::new();
    while it.is_valid() {
        out.push((
            String::from_utf8(it.key().to_vec()).unwrap(),
            String::from_utf8(it.value().to_vec()).unwrap(),
        ));
        it.next(txn).unwrap();
    }
    out
}

#[test]
fn scan_merges_local_writes() {
    let mut mvcc = LsmMvccInner::new(5);
    let mut txn = mvcc.new_txn(true);
    txn.put(b"b", b"local");
    txn.put(b"c", b"local");
    txn.delete(b"d");
    let expected: Vec<(String, String)> = [("a", "A"), ("b", "local"), ("c", "local")]
        .iter()
        .map(|(k, v)| (k.to_string(), v.to_string()))
        .collect();
    assert_eq!(scan_all(&mut txn), expected);
}

#[test]
fn scanned_keys_are_read() {
    let mut mvcc = LsmMvccInner::new(5);
    let mut writer = mvcc.new_txn(true);
    let mut reader = mvcc.new_txn(true);
    scan_all(&mut reader);
    reader.put(b"z", b"1");
    writer.put(b"c", b"2");
    assert!(commit(&mut writer, &mut mvcc).is_ok());
    assert_eq!(commit(&mut reader, &mut mvcc), Err(TxnError::Conflict));
}

#[test]
fn local_iterator_keeps_to_its_range() {
    let mut mvcc = LsmMvccInner::new(5);
    let mut txn = mvcc.new_txn(false);
    for k in [b"a", b"b", b"c", b"d"] {
        txn.put(k, b"x");
    }
    let keys = |lower: Bound, upper: Bound| {
        let mut it = TxnLocalIterator::create(&txn, &lower, &upper);
        let mut out = Vec::new();
        while it.is_valid() {
            out.extend_from_slice(it.key().key_ref());
            it.next().unwrap();
        }
        assert!(it.next().is_ok());
        out
    };
    let inc = |k: &[u8]| Bound::Included(k.to_vec());
    let exc = |k: &[u8]| Bound::Excluded(k.to_vec());
    assert_eq!(keys(Bound::Unbounded, Bound::Unbounded), b"abcd");
    assert_eq!(keys(inc(b"b"), exc(b"d")), b"bc");
    assert_eq!(keys(exc(b"b"), inc(b"d")), b"cd");
    assert_eq!(keys(inc(b"b"), inc(b"b")), b"b");
    assert_eq!(keys(exc(b"b"), exc(b"c")), b"");
    assert_eq!(keys(inc(b"e"), Bound::Unbounded), b"");
}

#[test]
fn txn_iterator_counts_iterators() {
    let mut mvcc = LsmMvccInner::new(5);
    let mut txn = mvcc.new_txn(false);
    txn.put(b"a", b"x");
    let it = txn.scan(&Bound::Unbounded, &Bound::Unbounded, stored(STORED, 5)).unwrap();
    assert_eq!(it.num_active_iterators(), 2);
    // Moving past a deleted key brings no iterators up.
    txn.delete(b"a");
    let it = txn.scan(&Bound::Unbounded, &Bound::Unbounded, stored(STORED, 5)).unwrap();
    assert_eq!(it.num_active_iterators(), 2);
}

#[test]
fn scan_is_read_where_it_is_noted() {
    let mut mvcc = LsmMvccInner::new(5);
    let mut txn = mvcc.new_txn(true);
    let mut writer = mvcc.new_txn(true);
    let mut it = txn.open_scan(&Bound::Unbounded, &Bound::Unbounded, stored(STORED, 5)).unwrap();
    assert_eq!(it.key(), b"a");
    it.advance(&txn).unwrap();
    assert_eq!(it.key(), b"c");
    it.note(&mut txn);
    it.advance(&txn).unwrap();
    assert_eq!(it.key(), b"d");
    // Only "c" counts as read.
    writer.put(b"a", b"1");
    writer.put(b"d", b"1");
    assert!(commit(&mut writer, &mut mvcc).is_ok());
    assert_eq!(txn.commit(&mvcc), Ok(Vec::new()));
    let mut txn = mvcc.new_txn(true);
    let mut writer = mvcc.new_txn(true);
    let mut it = txn.open_scan(&Bound::Unbounded, &Bound::Unbounded, stored(STORED, 5)).unwrap();
    it.advance(&txn).unwrap();
    it.note(&mut txn);
    writer.put(b"c", b"1");
    assert!(commit(&mut writer, &mut mvcc).is_ok());
    assert_eq!(txn.commit(&mvcc), Err(TxnError::Conflict));
}

#[test]
fn scan_counts_follow_what_is_stored() {
    let mut mvcc = LsmMvccInner::new(5);
    let mut txn = mvcc.new_txn(false);
    let part = |rows: &[(&str, u64, &str)]| {
        let mut builder = SsTableBuilder::new(4096);
        for (k, ts, v) in rows {
            builder.add(KeySlice::from_slice(k.as_bytes(), *ts), v.as_bytes());
        }
        SsTableIterator::create_and_seek_to_first(Arc::new(builder.build(0))).unwrap()
    };
    let merged = MergeIterator::create(vec![
        part(&[("a", 0, "A")]),
        part(&[("b", 0, "B"), ("d", 0, "D")]),
    ]);
    txn.delete(b"a");
    txn.put(b"c", b"C");
    // The deleted key is passed, and with it the iterator that had it.
    let mut it = txn.scan(&Bound::Unbounded, &Bound::Unbounded, merged).unwrap();
    assert_eq!((it.key(), it.num_active_iterators()), (&b"b"[..], 2));
    it.next(&mut txn).unwrap();
    assert_eq!((it.key(), it.num_active_iterators()), (&b"c"[..], 2));
    it.next(&mut txn).unwrap();
    assert_eq!((it.key(), it.num_active_iterators()), (&b"d"[..], 2));
    it.next(&mut txn).unwrap();
    assert!(!it.is_valid());
    assert_eq!(it.num_active_iterators(), 1);
}

#[test]
fn scan_sees_writes_behind_its_place() {
    let mut mvcc = LsmMvccInner::new(5);
    let mut txn = mvcc.new_txn(false);
    txn.put(b"b", b"1");
    let mut it = txn.scan(&Bound::Unbounded, &Bound::Unbounded, stored(STORED, 5)).unwrap();
    assert_eq!(it.key(), b"a");
    // The iterator has come to the write of "b": that one stays, and "aa" was passed.
    txn.put(b"b", b"2");
    txn.put(b"aa", b"3");
    txn.put(b"ca", b"4");
    txn.delete(b"d");
    let mut out = Vec::new();
    while it.is_valid() {
        out.push((it.key().to_vec(), it.value().to_vec()));
        it.next(&mut txn).unwrap();
    }
    let expected: Vec<(Vec<u8>, Vec<u8>)> = [("a", "A"), ("b", "1"), ("c", "C"), ("ca", "4")]
        .iter()
        .map(|(k, v)| (k.as_bytes().to_vec(), v.as_bytes().to_vec()))
        .collect();
    assert_eq!(out, expected);
}

#[test]
fn scan_past_the_last_write_sees_no_more_writes() {
    let mut mvcc = LsmMvccInner::new(5);
    let mut txn = mvcc.new_txn(false);
    let end = Bound::Excluded(b"d".to_vec());
    let mut it = txn.scan(&Bound::Unbounded, &end, stored(STORED, 5)).unwrap();
    txn.put(b"b", b"1");
    assert_eq!(it.key(), b"a");
    it.next(&mut txn).unwrap();
    assert_eq!(it.key(), b"c");
    // A write behind the end of the range is not seen either.
    txn.put(b"a", b"2");
    let mut it = txn.scan(&Bound::Unbounded, &end, stored(&[("x", 1, "X")], 5)).unwrap();
    assert_eq!(it.value(), b"2");
    txn.put(b"e", b"3");
    it.next(&mut txn).unwrap();
    assert_eq!(it.key(), b"b");
    it.next(&mut txn).unwrap();
    assert_eq!(it.key(), b"x");
}
