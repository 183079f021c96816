use mini_lsm::hash::can_hash;
use mini_lsm::key::KeySlice;
use mini_lsm::mvcc::LsmMvccInner;
use mini_lsm::table::builder::SsTableBuilder;

fn spread(len: usize, at: usize, word: [u8; 4]) -> Vec<u8> {
    let mut out = vec![0; len];
    out[at..at + 4].copy_from_slice(&word);
    out
}

#[test]
fn short_and_long_keys_can_be_hashed() {
    for len in [0, 1, 4, 25, 26, 100] {
        assert!(can_hash(&vec![0xff; len]));
    }
    for len in 0..40 {
        assert!(can_hash(&vec![0; len]));
        assert!(can_hash(&vec![b'a'; len]));
    }
    assert!(can_hash(b"hello"));
}

#[test]
fn keys_are_refused_where_an_addition_overflows() {
    for len in 5..13 {
        assert!(!can_hash(&vec![0xff; len]));
    }
    // The length is added to the first word, and in keys of up to seven bytes 9 is.
    assert!(can_hash(&spread(5, 0, [0xf6, 0xff, 0xff, 0xff])));
    assert!(!can_hash(&spread(5, 0, [0xf7, 0xff, 0xff, 0xff])));
    assert!(can_hash(&spread(12, 0, [0xf3, 0xff, 0xff, 0xff])));
    assert!(!can_hash(&spread(12, 0, [0xf4, 0xff, 0xff, 0xff])));
    // Five times the length is added to the last word.
    assert!(can_hash(&spread(5, 1, [0xe6, 0xff, 0xff, 0xff])));
    assert!(!can_hash(&spread(5, 1, [0xe7, 0xff, 0xff, 0xff])));
    assert!(can_hash(&spread(12, 8, [0xc3, 0xff, 0xff, 0xff])));
    assert!(!can_hash(&spread(12, 8, [0xc4, 0xff, 0xff, 0xff])));
    // From eight bytes on 9 is added to the second word.
    assert!(can_hash(&spread(12, 4, [0xf6, 0xff, 0xff, 0xff])));
    assert!(!can_hash(&spread(12, 4, [0xf7, 0xff, 0xff, 0xff])));
    // From 13 bytes on the length is added to a multiple of the word in the middle.
    assert!(can_hash(&spread(13, 6, [0x52, 0xbc, 0xae, 0xcf])));
    assert!(!can_hash(&spread(13, 6, [0x03, 0xf8, 0x8f, 0xae])));
    assert!(can_hash(&spread(24, 12, [0xb7, 0x2b, 0x01, 0x3c])));
    assert!(!can_hash(&spread(24, 12, [0x68, 0x67, 0xe2, 0x1a])));
}

#[test]
fn what_can_be_hashed_is_hashed() {
    let keys = [
        spread(5, 0, [0xf6, 0xff, 0xff, 0xff]),
        spread(5, 1, [0xe6, 0xff, 0xff, 0xff]),
        spread(12, 0, [0xf3, 0xff, 0xff, 0xff]),
        spread(12, 4, [0xf6, 0xff, 0xff, 0xff]),
        spread(12, 8, [0xc3, 0xff, 0xff, 0xff]),
        spread(13, 6, [0x52, 0xbc, 0xae, 0xcf]),
        spread(24, 12, [0xb7, 0x2b, 0x01, 0x3c]),
        vec![0xff; 4],
        vec![0xff; 25],
    ];
    let mut builder = SsTableBuilder::new(4096);
    let mut mvcc = LsmMvccInner::new(0);
    let mut txn = mvcc.new_txn(true);
    for key in &keys {
        assert!(can_hash(key));
        builder.add(KeySlice::from_slice(key, 1), b"v");
        txn.put(key, b"v");
    }
    let table = builder.build(1);
    for key in &keys {
        assert!(table.bloom().unwrap().may_contain(farmhash::fingerprint32(key)));
    }
    assert_eq!(txn.commit(&mvcc).unwrap().len(), keys.len());
}
