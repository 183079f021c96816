use std::collections::HashMap;
use std::sync::Arc;

use mini_lsm::compact::leveled::LeveledCompactionOptions;
use mini_lsm::compact::simple_leveled::SimpleLeveledCompactionOptions;
use mini_lsm::compact::tiered::TieredCompactionOptions;
use mini_lsm::compact::{CompactionController, CompactionOptions, CompactionTask};
use mini_lsm::error::StorageError;
use mini_lsm::iterators::concat_iterator::SstConcatIterator;
use mini_lsm::iterators::merge_iterator::MergeIterator;
use mini_lsm::iterators::StorageIterator;
use mini_lsm::key::KeySlice;
use mini_lsm::lsm_iterator::{Bound, LsmIterator};
use mini_lsm::lsm_storage::{
    CompactionFilter, LsmStorageInner, LsmStorageOptions, LsmStorageState,
};
use mini_lsm::mvcc::LsmMvccInner;
use mini_lsm::table::builder::SsTableBuilder;
use mini_lsm::table::iterator::SsTableIterator;
use mini_lsm::table::{FileObject, SsTable};

type Row<'a> = (&'a str, u64, &'a str);

const NO_LIMIT: usize = 1 << 20;

fn storage(options: CompactionOptions, target_sst_size: usize, latest_ts: u64) -> LsmStorageInner {
    LsmStorageInner {
        options: LsmStorageOptions {
            block_size: 64,
            target_sst_size,
            num_memtable_limit: 3,
            compaction_options: options,
        },
        state: LsmStorageState {
            l0_sstables: Vec::new(),
            levels: vec![(1, Vec::new()), (2, Vec::new())],
            sstables: HashMap::new(),
        },
        next_id: 100,
        compaction_filters: Vec::new(),
        compaction_controller: CompactionController::new(options),
        mvcc: LsmMvccInner::new(latest_ts),
    }
}

fn add(s: &mut LsmStorageInner, id: usize, rows: &[Row]) {
    let mut builder = SsTableBuilder::new(64);
    for (k, ts, v) in rows {
        builder.add(KeySlice::from_slice(k.as_bytes(), *ts), v.as_bytes());
    }
    s.state.sstables.insert(id, Arc::new(builder.build(id)));
}

fn rows_of(s: &LsmStorageInner, ids: &[usize]) -> Vec<(String, u64, String)> {
    let tables = ids.iter().map(|id| s.state.sstables[id].clone()).collect();
    let mut it = SstConcatIterator::create_and_seek_to_first(tables).unwrap();
    let mut out = Vec::new();
    while it.is_valid() {
        out.push((
            String::from_utf8(it.key().key_ref().to_vec()).unwrap(),
            it.key().ts(),
            String::from_utf8(it.value().to_vec()).unwrap(),
        ));
        it.next().unwrap();
    }
    out
}

fn rows(expected: &[Row]) -> Vec<(String, u64, String)> {
    expected.iter().map(|(k, ts, v)| (k.to_string(), *ts, v.to_string())).collect()
}

/// The entries that a reader at `ts` sees in tables that form a run.
fn read_at(s: &LsmStorageInner, ids: &[usize], ts: u64) -> Vec<(String, String)> {
    let tables = ids.iter().map(|id| s.state.sstables[id].clone()).collect();
    let iter = SstConcatIterator::create_and_seek_to_first(tables).unwrap();
    let mut it = LsmIterator::new(iter, Bound::Unbounded, ts).unwrap();
    let mut out = Vec::new();
    while it.is_valid() {
        out.push((
            String::from_utf8(it.key().key_ref().to_vec()).unwrap(),
            String::from_utf8(it.value().to_vec()).unwrap(),
        ));
        it.next().unwrap();
    }
    out
}

#[test]
fn full_compaction_keeps_the_newest_versions() {
    let mut s = storage(CompactionOptions::NoCompaction, NO_LIMIT, 9);
    add(&mut s, 3, &[("a", 3, "a3"), ("c", 3, "")]);
    add(&mut s, 2, &[("a", 2, "a2"), ("b", 2, "b2")]);
    add(&mut s, 1, &[("a", 1, "a1"), ("c", 1, "c1"), ("d", 1, "d1")]);
    s.state.l0_sstables = vec![3, 2];
    s.state.levels[0].1 = vec![1];
    let done = s.force_full_compaction().unwrap();
    assert_eq!(done.output, vec![100]);
    assert_eq!(done.removed, vec![3, 2, 1]);
    assert_eq!(
        done.task,
        CompactionTask::ForceFullCompaction { l0_sstables: vec![3, 2], l1_sstables: vec![1] }
    );
    assert!(s.state.l0_sstables.is_empty());
    assert_eq!(s.state.levels[0].1, vec![100]);
    assert_eq!(s.state.sstables.len(), 1);
    assert_eq!(s.next_id, 101);
    assert_eq!(rows_of(&s, &[100]), rows(&[("a", 3, "a3"), ("b", 2, "b2"), ("d", 1, "d1")]));
}

#[test]
fn versions_above_the_watermark_stay() {
    let mut s = storage(CompactionOptions::NoCompaction, NO_LIMIT, 2);
    let reader = s.mvcc.new_txn(false);
    assert_eq!(s.mvcc.next_commit_ts(), 3);
    assert_eq!(s.mvcc.next_commit_ts(), 4);
    add(&mut s, 1, &[
        ("a", 4, "a4"), ("a", 3, "a3"), ("a", 2, "a2"), ("a", 1, "a1"),
        ("b", 4, ""), ("b", 1, ""),
        ("c", 3, "c3"), ("c", 2, ""), ("c", 1, "c1"),
    ]);
    let before: Vec<_> = (2..6).map(|ts| read_at(&s, &[1], ts)).collect();
    s.state.levels[0].1 = vec![1];
    s.force_full_compaction().unwrap();
    assert_eq!(
        rows_of(&s, &[100]),
        rows(&[("a", 4, "a4"), ("a", 3, "a3"), ("a", 2, "a2"), ("b", 4, ""), ("c", 3, "c3")])
    );
    let after: Vec<_> = (2..6).map(|ts| read_at(&s, &[100], ts)).collect();
    assert_eq!(before, after);
    reader.release(&mut s.mvcc);
    s.force_full_compaction().unwrap();
    assert_eq!(rows_of(&s, &[101]), rows(&[("a", 4, "a4"), ("c", 3, "c3")]));
}

#[test]
fn deletion_marks_stay_above_the_last_level() {
    let options = SimpleLeveledCompactionOptions {
        size_ratio_percent: 1,
        level0_file_num_compaction_trigger: 2,
        max_levels: 2,
    };
    let mut s = storage(CompactionOptions::Simple(options), NO_LIMIT, 9);
    add(&mut s, 4, &[("a", 4, ""), ("b", 4, "b4")]);
    add(&mut s, 3, &[("a", 3, "a3")]);
    s.state.l0_sstables = vec![4, 3];
    let done = s.trigger_compaction().unwrap().unwrap();
    assert_eq!(done.removed, vec![4, 3]);
    assert_eq!(rows_of(&s, &done.output), rows(&[("a", 4, ""), ("b", 4, "b4")]));
    assert_eq!(s.state.levels[0].1, done.output);
    // The empty second level is below the ratio: the mark goes when it gets there.
    let done = s.trigger_compaction().unwrap().unwrap();
    assert_eq!(done.removed, vec![100]);
    assert_eq!(s.state.levels, vec![(1, vec![]), (2, vec![101])]);
    assert_eq!(rows_of(&s, &[101]), rows(&[("b", 4, "b4")]));
    assert!(s.trigger_compaction().unwrap().is_none());
}

#[test]
fn filtered_keys_go_below_the_watermark() {
    let mut s = storage(CompactionOptions::NoCompaction, NO_LIMIT, 2);
    let _reader = s.mvcc.new_txn(false);
    assert_eq!(s.mvcc.next_commit_ts(), 3);
    s.compaction_filters.push(CompactionFilter::Prefix(b"ta".to_vec()));
    add(&mut s, 1, &[
        ("sa", 1, "x"), ("ta", 1, "x"), ("tab", 3, "new"), ("tab", 2, "old"), ("tb", 1, "x"),
    ]);
    s.state.levels[0].1 = vec![1];
    s.force_full_compaction().unwrap();
    assert_eq!(rows_of(&s, &[100]), rows(&[("sa", 1, "x"), ("tab", 3, "new"), ("tb", 1, "x")]));
    assert!(!s.compaction_filters[0].matches(b"t"));
    assert!(s.compaction_filters[0].matches(b"ta"));
}

#[test]
fn versions_of_a_key_share_a_table() {
    let mut s = storage(CompactionOptions::NoCompaction, 1, 0);
    let names: Vec<String> = (0..30).map(|i| format!("k{:02}", i / 10)).collect();
    let all: Vec<Row> =
        names.iter().enumerate().map(|(i, k)| (k.as_str(), 50 - i as u64, "value")).collect();
    add(&mut s, 1, &all);
    s.state.levels[0].1 = vec![1];
    let done = s.force_full_compaction().unwrap();
    assert_eq!(done.output, vec![100, 101, 102]);
    assert_eq!(s.state.levels[0].1, vec![100, 101, 102]);
    assert_eq!(rows_of(&s, &done.output), rows(&all));
    for (i, id) in done.output.iter().enumerate() {
        let key = format!("k{:02}", i).into_bytes();
        let table = &s.state.sstables[id];
        assert_eq!(table.sst_id(), *id);
        assert_eq!(table.first_key().key_ref(), key.as_slice());
        assert_eq!(table.last_key().key_ref(), key.as_slice());
    }
}

#[test]
fn nothing_left_writes_no_table() {
    let mut s = storage(CompactionOptions::NoCompaction, NO_LIMIT, 9);
    add(&mut s, 1, &[("a", 1, "")]);
    s.state.l0_sstables = vec![1];
    let done = s.force_full_compaction().unwrap();
    assert!(done.output.is_empty());
    assert!(s.state.sstables.is_empty());
    assert!(s.state.levels[0].1.is_empty());
    assert_eq!(s.next_id, 100);
}

#[test]
fn tables_flushed_meanwhile_stay() {
    let mut s = storage(CompactionOptions::NoCompaction, NO_LIMIT, 9);
    add(&mut s, 1, &[("a", 1, "a1")]);
    s.state.l0_sstables = vec![1];
    let task = s.full_compaction_task();
    let new_ssts = s.compact(&task).unwrap();
    add(&mut s, 2, &[("a", 2, "a2")]);
    s.state.l0_sstables = vec![2, 1];
    let output = s.install_full_compaction(&vec![1], &vec![], &new_ssts);
    assert_eq!(s.state.l0_sstables, vec![2]);
    assert_eq!(s.state.levels[0].1, output);
    assert_eq!(rows_of(&s, &[2]), rows(&[("a", 2, "a2")]));
}

#[test]
fn damaged_tables_are_not_compacted() {
    let mut s = storage(CompactionOptions::NoCompaction, NO_LIMIT, 9);
    add(&mut s, 1, &[("a", 1, "a1")]);
    let mut bytes = s.state.sstables[&1].file().contents().unwrap().clone();
    bytes[0] ^= 1;
    let bad = SsTable::open(1, FileObject::from_bytes(bytes)).unwrap();
    s.state.sstables.insert(1, Arc::new(bad));
    for at_l0 in [true, false] {
        s.state.l0_sstables = if at_l0 { vec![1] } else { vec![] };
        s.state.levels[0].1 = if at_l0 { vec![] } else { vec![1] };
        assert!(matches!(
            s.force_full_compaction(),
            Err(StorageError::BlockChecksumMismatch)
        ));
        assert_eq!(s.state.sstables.len(), 1);
        assert_eq!(s.next_id, 100);
    }
}

#[test]
fn tiers_are_merged() {
    let options = TieredCompactionOptions {
        num_tiers: 2,
        max_size_amplification_percent: 100,
        size_ratio: 1,
        min_merge_width: 2,
        max_merge_width: None,
    };
    let mut s = storage(CompactionOptions::Tiered(options), NO_LIMIT, 9);
    add(&mut s, 2, &[("a", 2, "a2"), ("c", 2, "")]);
    add(&mut s, 1, &[("a", 1, "a1"), ("b", 1, "b1"), ("c", 1, "c1")]);
    s.state.levels = vec![(2, vec![2]), (1, vec![1])];
    let done = s.trigger_compaction().unwrap().unwrap();
    assert_eq!(s.state.levels, vec![(100, vec![100])]);
    assert_eq!(done.removed, vec![2, 1]);
    assert_eq!(rows_of(&s, &[100]), rows(&[("a", 2, "a2"), ("b", 1, "b1")]));
    assert!(s.trigger_compaction().unwrap().is_none());
}

#[test]
fn levels_stay_in_order() {
    let options = LeveledCompactionOptions {
        level_size_multiplier: 2,
        level0_file_num_compaction_trigger: 1,
        max_levels: 2,
        base_level_size_mb: 1,
    };
    let mut s = storage(CompactionOptions::Leveled(options), NO_LIMIT, 9);
    add(&mut s, 1, &[("a", 1, "a1"), ("b", 1, "b1")]);
    add(&mut s, 2, &[("l", 1, "l1"), ("m", 1, "m1"), ("n", 1, "n1")]);
    add(&mut s, 3, &[("x", 1, "x1")]);
    add(&mut s, 4, &[("k", 4, "k4"), ("m", 4, "m4")]);
    s.state.levels[1].1 = vec![1, 2, 3];
    s.state.l0_sstables = vec![4];
    let task = s.due_compaction().unwrap();
    let new_ssts = s.compact(&task).unwrap();
    let (output, removed) = s.install_compaction(&task, &new_ssts);
    assert_eq!(output, vec![100]);
    assert_eq!(removed, vec![4, 2]);
    assert_eq!(s.state.levels[1].1, vec![1, 100, 3]);
    assert_eq!(
        rows_of(&s, &[1, 100, 3]),
        rows(&[
            ("a", 1, "a1"), ("b", 1, "b1"), ("k", 4, "k4"), ("l", 1, "l1"), ("m", 4, "m4"),
            ("n", 1, "n1"), ("x", 1, "x1"),
        ])
    );
}

#[test]
fn tables_are_written_from_an_iterator() {
    let mut s = storage(CompactionOptions::NoCompaction, NO_LIMIT, 9);
    add(&mut s, 1, &[("a", 2, ""), ("a", 1, "a1"), ("b", 1, "b1")]);
    let iter = SsTableIterator::create_and_seek_to_first(s.state.sstables[&1].clone()).unwrap();
    let out = s.compact_generate_sst_from_iter(iter, false).unwrap();
    assert_eq!(out.len(), 1);
    assert_eq!(out[0].max_ts(), 2);
    s.state.sstables.insert(100, out[0].clone());
    assert_eq!(rows_of(&s, &[100]), rows(&[("a", 2, ""), ("b", 1, "b1")]));
}

#[test]
fn flush_is_due_at_the_limit() {
    let s = storage(CompactionOptions::NoCompaction, NO_LIMIT, 0);
    assert!(!s.trigger_flush(2));
    assert!(s.trigger_flush(3));
    assert!(!s.compacts_in_background());
    let options = SimpleLeveledCompactionOptions {
        size_ratio_percent: 200,
        level0_file_num_compaction_trigger: 2,
        max_levels: 2,
    };
    assert!(storage(CompactionOptions::Simple(options), NO_LIMIT, 0).compacts_in_background());
}

#[test]
fn nothing_is_due_without_tiers() {
    let options = TieredCompactionOptions {
        num_tiers: 2,
        max_size_amplification_percent: 100,
        size_ratio: 1,
        min_merge_width: 2,
        max_merge_width: None,
    };
    let mut s = storage(CompactionOptions::Tiered(options), NO_LIMIT, 9);
    s.state.levels = Vec::new();
    assert!(s.trigger_compaction().unwrap().is_none());
}

/// The entries that a reader at `ts` sees in L0 and the levels together.
fn read_all(s: &LsmStorageInner, ts: u64) -> Vec<(String, String)> {
    let open = |ids: &[usize]| {
        let tables = ids.iter().map(|id| s.state.sstables[id].clone()).collect();
        SstConcatIterator::create_and_seek_to_first(tables).unwrap()
    };
    let mut layers: Vec<SstConcatIterator> =
        s.state.l0_sstables.iter().map(|id| open(&[*id])).collect();
    layers.extend(s.state.levels.iter().map(|(_, ids)| open(ids)));
    let mut it = LsmIterator::new(MergeIterator::create(layers), Bound::Unbounded, ts).unwrap();
    let mut out = Vec::new();
    while it.is_valid() {
        out.push((
            String::from_utf8(it.key().key_ref().to_vec()).unwrap(),
            String::from_utf8(it.value().to_vec()).unwrap(),
        ));
        it.next().unwrap();
    }
    out
}

/// The numbers in L0 and the levels, in order.
fn listed(s: &LsmStorageInner) -> Vec<usize> {
    let mut out = s.state.l0_sstables.clone();
    out.extend(s.state.levels.iter().flat_map(|(_, ids)| ids.clone()));
    out.sort();
    out
}

/// The numbers of the tables, in order.
fn known(s: &LsmStorageInner) -> Vec<usize> {
    let mut out: Vec<usize> = s.state.sstables.keys().copied().collect();
    out.sort();
    out
}

#[test]
fn full_compaction_lists_what_is_there() {
    let mut s = storage(CompactionOptions::NoCompaction, 1, 9);
    let long = "0123456789".repeat(5);
    add(&mut s, 4, &[("a", 4, &long)]);
    add(&mut s, 3, &[("b", 3, &long), ("c", 3, &long)]);
    add(&mut s, 2, &[("a", 2, &long), ("d", 2, &long)]);
    add(&mut s, 1, &[("e", 1, &long)]);
    s.state.l0_sstables = vec![4, 3];
    s.state.levels = vec![(1, vec![2]), (2, vec![1])];
    let done = s.force_full_compaction().unwrap();
    assert!(done.output.len() > 1);
    assert_eq!(done.removed, vec![4, 3, 2]);
    assert_eq!(listed(&s), known(&s));
    assert!(s.state.sstables.contains_key(&1));
}

#[test]
fn working_copy_compacts_while_tables_are_flushed() {
    let mut s = storage(CompactionOptions::NoCompaction, NO_LIMIT, 9);
    s.compaction_filters.push(CompactionFilter::Prefix(b"drop".to_vec()));
    add(&mut s, 2, &[("a", 2, "a2"), ("drop", 2, "x")]);
    add(&mut s, 1, &[("a", 1, "a1"), ("b", 1, "b1")]);
    s.state.l0_sstables = vec![2];
    s.state.levels[0].1 = vec![1];
    let task = s.full_compaction_task();
    let mut work = s.working_copy(10);
    assert_eq!((work.next_id, s.next_id), (100, 110));
    add(&mut s, 110, &[("b", 5, "b5")]);
    s.state.l0_sstables.insert(0, 110);
    let new_ssts = work.compact(&task).unwrap();
    assert_eq!(s.install_full_compaction(&vec![2], &vec![1], &new_ssts), vec![100]);
    assert_eq!(s.state.l0_sstables, vec![110]);
    assert_eq!(rows_of(&s, &[100]), rows(&[("a", 2, "a2"), ("b", 1, "b1")]));
    assert_eq!(listed(&s), known(&s));
}

#[test]
fn task_above_the_last_level_may_leave_versions_behind() {
    let options = LeveledCompactionOptions {
        level_size_multiplier: 2,
        level0_file_num_compaction_trigger: 1,
        max_levels: 3,
        base_level_size_mb: 0,
    };
    let mut s = storage(CompactionOptions::Leveled(options), NO_LIMIT, 9);
    // The table in the first level begins with an older version of the last key of L0, which does
    // not count as an overlap.
    add(&mut s, 3, &[("k", 4, "k4"), ("m", 4, "m4")]);
    add(&mut s, 2, &[("m", 1, "m1"), ("n", 1, "n1")]);
    add(&mut s, 1, &[("a", 1, "a1"), ("z", 1, "z1")]);
    s.state.l0_sstables = vec![3];
    s.state.levels = vec![(1, vec![2]), (2, Vec::new()), (3, vec![1])];
    let before = read_all(&s, 9);
    let done = s.trigger_compaction().unwrap().unwrap();
    assert!(!done.task.compact_to_bottom_level());
    assert_eq!(done.removed, vec![3]);
    assert_eq!(read_all(&s, 9), before);
}

#[test]
fn no_read_notices_a_compaction() {
    let simple = CompactionOptions::Simple(SimpleLeveledCompactionOptions {
        size_ratio_percent: 200,
        level0_file_num_compaction_trigger: 1,
        max_levels: 2,
    });
    let leveled = CompactionOptions::Leveled(LeveledCompactionOptions {
        level_size_multiplier: 2,
        level0_file_num_compaction_trigger: 1,
        max_levels: 2,
        base_level_size_mb: 1,
    });
    let tiered = CompactionOptions::Tiered(TieredCompactionOptions {
        num_tiers: 2,
        max_size_amplification_percent: 100,
        size_ratio: 1,
        min_merge_width: 2,
        max_merge_width: None,
    });
    for options in [simple, leveled, tiered] {
        let mut s = storage(options, 1, 5);
        let _reader = s.mvcc.new_txn(false);
        assert_eq!(s.mvcc.next_commit_ts(), 6);
        assert_eq!(s.mvcc.next_commit_ts(), 7);
        add(&mut s, 4, &[("b", 7, ""), ("c", 6, "c6"), ("d", 4, ""), ("e", 4, "e4")]);
        add(&mut s, 3, &[("a", 3, ""), ("b", 3, "b3"), ("e", 3, "e3")]);
        add(&mut s, 2, &[("a", 2, "a2"), ("b", 2, "b2"), ("c", 2, "c2"), ("d", 2, "d2")]);
        if s.compaction_controller.flush_to_l0() {
            s.state.l0_sstables = vec![4];
            s.state.levels = vec![(1, vec![3]), (2, vec![2])];
        } else {
            s.state.levels = vec![(4, vec![4]), (3, vec![3]), (2, vec![2])];
        }
        let before: Vec<_> = (5..9).map(|ts| read_all(&s, ts)).collect();
        let mut runs = 0;
        assert_eq!(listed(&s), known(&s));
        while s.trigger_compaction().unwrap().is_some() {
            // The lists name each table once and nothing else.
            assert_eq!(listed(&s), known(&s));
            let after: Vec<_> = (5..9).map(|ts| read_all(&s, ts)).collect();
            assert_eq!(before, after);
            runs += 1;
            assert!(runs < 10);
        }
        assert!(runs > 0);
    }
}
