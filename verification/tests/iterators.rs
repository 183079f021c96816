use std::sync::Arc;

use mini_lsm::error::StorageError;
use mini_lsm::iterators::merge_iterator::MergeIterator;
use mini_lsm::iterators::two_merge_iterator::TwoMergeIterator;
use mini_lsm::iterators::StorageIterator;
use mini_lsm::key::KeySlice;
use mini_lsm::lsm_iterator::{Bound, FusedIterator, LsmIterator};
use mini_lsm::table::builder::SsTableBuilder;
use mini_lsm::table::iterator::SsTableIterator;
use mini_lsm::table::{FileObject, SsTable};

type Row<'a> = (&'a str, u64, &'a str);

fn table(rows: &[Row]) -> Arc<SsTable> {
    let mut builder = SsTableBuilder::new(64);
    for (k, ts, v) in rows {
        builder.add(KeySlice::from_slice(k.as_bytes(), *ts), v.as_bytes());
    }
    Arc::new(builder.build(0))
}

fn iter(rows: &[Row]) -> SsTableIterator {
    SsTableIterator::create_and_seek_to_first(table(rows)).unwrap()
}

/// A table whose second block is damaged.
fn failing(first: Row, second: Row) -> SsTableIterator {
    let mut builder = SsTableBuilder::new(1);
    for (k, ts, v) in [first, second] {
        builder.add(KeySlice::from_slice(k.as_bytes(), ts), v.as_bytes());
    }
    let size = builder.estimated_size();
    let mut bytes = builder.build(0).file().contents().unwrap().clone();
    bytes[size] ^= 1;
    let table = SsTable::open(0, FileObject::from_bytes(bytes)).unwrap();
    SsTableIterator::create_and_seek_to_first(Arc::new(table)).unwrap()
}

fn drain<I: StorageIterator>(mut it: I) -> Vec<(String, u64, String)> {
    let mut out = Vec::new();
    while it.is_valid() {
        out.push((
            String::from_utf8(it.key().key_ref().to_vec()).unwrap(),
            it.key().ts(),
            String::from_utf8(it.value().to_vec()).unwrap(),
        ));
        it.next().unwrap();
    }
    out
}

fn rows(expected: &[Row]) -> Vec<(String, u64, String)> {
    expected.iter().map(|(k, ts, v)| (k.to_string(), *ts, v.to_string())).collect()
}

#[test]
fn merge_takes_the_first_source_of_a_key() {
    let a = iter(&[("a", 1, "a1"), ("c", 1, "c1")]);
    let b = iter(&[("a", 2, "b0"), ("a", 1, "b1"), ("b", 1, "b2"), ("c", 1, "b3")]);
    let merged = MergeIterator::create(vec![a, b]);
    assert_eq!(merged.num_active_iterators(), 2);
    assert_eq!(
        drain(merged),
        rows(&[("a", 2, "b0"), ("a", 1, "a1"), ("b", 1, "b2"), ("c", 1, "c1")])
    );
    assert!(!MergeIterator::<SsTableIterator>::create(Vec::new()).is_valid());
}

#[test]
fn merge_counts_iterators_with_entries() {
    let mut merged = MergeIterator::create(vec![iter(&[("a", 1, "x")]), iter(&[("b", 1, "y")])]);
    assert_eq!(merged.num_active_iterators(), 2);
    merged.next().unwrap();
    assert_eq!(merged.num_active_iterators(), 1);
}

#[test]
fn counts_follow_the_wrapped_iterators() {
    let sources = || {
        MergeIterator::create(vec![
            iter(&[("a", 9, "new")]),
            iter(&[("a", 1, "a1"), ("c", 1, "c1")]),
            iter(&[("b", 1, "")]),
        ])
    };
    assert_eq!(sources().num_active_iterators(), 3);
    // The version that is too new is passed, and its source has nothing left.
    let mut it =
        FusedIterator::new(LsmIterator::new(sources(), Bound::Unbounded, 5).unwrap());
    assert_eq!(it.key().key_ref(), b"a");
    assert_eq!(it.num_active_iterators(), 2);
    // The deleted key is passed too.
    it.next().unwrap();
    assert_eq!(it.key().key_ref(), b"c");
    assert_eq!(it.num_active_iterators(), 1);
    it.next().unwrap();
    assert_eq!(it.num_active_iterators(), 0);
    it.next().unwrap();
    assert_eq!(it.num_active_iterators(), 0);
    // A move that fails leaves nothing of merged iterators.
    let mut it = MergeIterator::create(vec![
        iter(&[("x", 1, "x")]),
        failing(("a", 1, "x"), ("b", 1, "y")),
    ]);
    assert_eq!(it.num_active_iterators(), 2);
    assert!(it.next().is_err());
    assert_eq!(it.num_active_iterators(), 0);
}

#[test]
fn two_merge_prefers_the_first() {
    let a = iter(&[("b", 1, "A"), ("d", 1, "A")]);
    let b = iter(&[("a", 1, "B"), ("b", 1, "B"), ("c", 1, "B")]);
    let it = TwoMergeIterator::create(a, b);
    assert_eq!(it.num_active_iterators(), 2);
    assert_eq!(
        drain(it),
        rows(&[("a", 1, "B"), ("b", 1, "A"), ("c", 1, "B"), ("d", 1, "A")])
    );
}

#[test]
fn merge_ends_at_an_error() {
    let a = failing(("a", 1, "x"), ("b", 1, "y"));
    let b = iter(&[("a", 1, "z"), ("c", 1, "w")]);
    let mut merged = MergeIterator::create(vec![a, b]);
    assert_eq!(merged.value(), b"x");
    assert_eq!(merged.next(), Err(StorageError::BlockChecksumMismatch));
    assert!(!merged.is_valid());
    let a = iter(&[("a", 1, "z"), ("c", 1, "w")]);
    let b = failing(("a", 1, "x"), ("b", 1, "y"));
    let mut two = TwoMergeIterator::create(a, b);
    assert_eq!(two.next(), Err(StorageError::BlockChecksumMismatch));
    assert!(!two.is_valid());
}

const HISTORY: &[Row] = &[
    ("a", 5, "a5"),
    ("a", 2, "a2"),
    ("b", 4, ""),
    ("b", 1, "b1"),
    ("c", 6, "c6"),
    ("d", 3, "d3"),
];

fn scan(end: Bound, read_ts: u64) -> Vec<(String, u64, String)> {
    drain(LsmIterator::new(iter(HISTORY), end, read_ts).unwrap())
}

#[test]
fn scan_shows_a_point_in_time() {
    assert_eq!(scan(Bound::Unbounded, 0), rows(&[]));
    assert_eq!(scan(Bound::Unbounded, 1), rows(&[("b", 0, "b1")]));
    assert_eq!(scan(Bound::Unbounded, 3), rows(&[("a", 0, "a2"), ("b", 0, "b1"), ("d", 0, "d3")]));
    assert_eq!(scan(Bound::Unbounded, 4), rows(&[("a", 0, "a2"), ("d", 0, "d3")]));
    assert_eq!(scan(Bound::Unbounded, 9), rows(&[("a", 0, "a5"), ("c", 0, "c6"), ("d", 0, "d3")]));
}

#[test]
fn scan_ends_at_its_bound() {
    assert_eq!(
        scan(Bound::Included(b"c".to_vec()), 9),
        rows(&[("a", 0, "a5"), ("c", 0, "c6")])
    );
    assert_eq!(scan(Bound::Excluded(b"c".to_vec()), 9), rows(&[("a", 0, "a5")]));
    assert_eq!(scan(Bound::Excluded(b"a".to_vec()), 9), rows(&[]));
}

#[test]
fn scan_reports_errors() {
    // The error comes while the first visible entry is looked for.
    let it = LsmIterator::new(failing(("a", 9, "x"), ("b", 1, "y")), Bound::Unbounded, 5);
    assert!(matches!(it, Err(StorageError::BlockChecksumMismatch)));
    // The error comes behind a visible entry.
    let mut it =
        LsmIterator::new(failing(("a", 1, "x"), ("b", 1, "y")), Bound::Unbounded, 5).unwrap();
    assert_eq!(it.value(), b"x");
    assert_eq!(it.num_active_iterators(), 1);
    assert_eq!(it.next(), Err(StorageError::BlockChecksumMismatch));
    assert!(!it.is_valid());
}

#[test]
fn fused_iterator_stays_ended_and_stays_failed() {
    let mut it = FusedIterator::new(iter(&[("a", 1, "x")]));
    assert!(it.is_valid());
    assert_eq!(it.next(), Ok(()));
    assert!(!it.is_valid());
    assert_eq!(it.next(), Ok(()));
    assert_eq!(it.next(), Ok(()));
    let mut it = FusedIterator::new(failing(("a", 1, "x"), ("b", 1, "y")));
    assert_eq!(it.key().key_ref(), b"a");
    assert_eq!(it.num_active_iterators(), 1);
    assert_eq!(it.next(), Err(StorageError::BlockChecksumMismatch));
    assert!(!it.is_valid());
    assert_eq!(it.next(), Err(StorageError::IteratorErrored));
    assert_eq!(it.next(), Err(StorageError::IteratorErrored));
}
