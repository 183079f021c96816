use crossbeam_skiplist::SkipMap;
use mini_lsm::error::StorageError;
use mini_lsm::key::KeySlice;
use mini_lsm::wal::Wal;

type Buffer = SkipMap<(Vec<u8>, u64), Vec<u8>>;

fn items(m: &Buffer) -> Vec<(Vec<u8>, u64, Vec<u8>)> {
    m.iter()
        .map(|e| (e.key().0.clone(), u64::MAX - e.key().1, e.value().clone()))
        .collect()
}

fn replay(log: &[u8]) -> (Vec<(Vec<u8>, u64, Vec<u8>)>, Option<StorageError>) {
    let mut m: Buffer = SkipMap::new();
    let fault = Wal::recover(log, &mut m).err();
    (items(&m), fault)
}

fn two_batches() -> (Vec<u8>, Vec<u8>) {
    let mut wal = Wal::create();
    wal.put_batch(&[
        (KeySlice::from_slice(b"a", 1), b"x".as_slice()),
        (KeySlice::from_slice(b"b", 1), b"".as_slice()),
    ]);
    let first = wal.take_unwritten();
    wal.put_batch(&[(KeySlice::from_slice(b"a", 2), b"y".as_slice())]);
    (first, wal.take_unwritten())
}

#[test]
fn batch_bytes_are_exact() {
    let (first, _) = two_batches();
    let body: Vec<u8> = vec![
        0, 1, b'a', 0, 0, 0, 0, 0, 0, 0, 1, 0, 1, b'x', // first entry
        0, 1, b'b', 0, 0, 0, 0, 0, 0, 0, 1, 0, 0, // second entry
    ];
    let mut expected = vec![0, 0, 0, 27];
    expected.extend_from_slice(&body);
    expected.extend_from_slice(&crc32fast::hash(&body).to_be_bytes());
    assert_eq!(first, expected);
    assert!(Wal::create().take_unwritten().is_empty());
}

#[test]
fn put_logs_one_entry_without_a_timestamp() {
    let mut wal = Wal::create();
    wal.put(b"k", b"v");
    let (rows, fault) = replay(&wal.take_unwritten());
    assert_eq!(rows, vec![(b"k".to_vec(), 0, b"v".to_vec())]);
    assert_eq!(fault, None);
}

#[test]
fn log_is_replayed() {
    let (first, second) = two_batches();
    let log = [first, second].concat();
    let (rows, fault) = replay(&log);
    assert_eq!(fault, None);
    assert_eq!(
        rows,
        vec![
            (b"a".to_vec(), 2, b"y".to_vec()),
            (b"a".to_vec(), 1, b"x".to_vec()),
            (b"b".to_vec(), 1, Vec::new()),
        ]
    );
    assert_eq!(replay(&[]), (Vec::new(), None));
}

#[test]
fn later_write_of_a_version_wins() {
    let mut wal = Wal::create();
    wal.put_batch(&[
        (KeySlice::from_slice(b"a", 1), b"old".as_slice()),
        (KeySlice::from_slice(b"a", 1), b"new".as_slice()),
    ]);
    let (rows, _) = replay(&wal.take_unwritten());
    assert_eq!(rows, vec![(b"a".to_vec(), 1, b"new".to_vec())]);
}

#[test]
fn torn_batch_is_replayed_in_no_part() {
    let (first, second) = two_batches();
    let whole = replay(&first).0;
    for cut in 1..second.len() {
        let log = [first.clone(), second[..cut].to_vec()].concat();
        assert_eq!(replay(&log), (whole.clone(), Some(StorageError::CorruptWal)));
    }
}

#[test]
fn damaged_batch_is_refused() {
    let (first, second) = two_batches();
    let mut log = [first, second].concat();
    log[6] = b'q';
    assert_eq!(replay(&log), (Vec::new(), Some(StorageError::WalChecksumMismatch)));
    // A key length that reaches out of the body.
    log[5] = 200;
    assert_eq!(replay(&log), (Vec::new(), Some(StorageError::CorruptWal)));
}
