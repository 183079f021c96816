use std::collections::HashMap;
use std::sync::Arc;

use mini_lsm::compact::leveled::{
    LeveledCompactionController, LeveledCompactionOptions, LeveledCompactionTask,
};
use mini_lsm::compact::simple_leveled::{
    SimpleLeveledCompactionController, SimpleLeveledCompactionOptions, SimpleLeveledCompactionTask,
};
use mini_lsm::compact::tiered::{
    TieredCompactionController, TieredCompactionOptions, TieredCompactionTask,
};
use mini_lsm::compact::{CompactionController, CompactionOptions, CompactionTask};
use mini_lsm::key::KeyVec;
use mini_lsm::lsm_storage::LsmStorageState;
use mini_lsm::table::SsTable;

const MB: u64 = 1024 * 1024;

fn state(l0: &[usize], levels: &[(usize, &[usize])]) -> LsmStorageState {
    LsmStorageState {
        l0_sstables: l0.to_vec(),
        levels: levels.iter().map(|(id, files)| (*id, files.to_vec())).collect(),
        sstables: HashMap::new(),
    }
}

fn add_table(s: &mut LsmStorageState, id: usize, size: u64, first: &str, last: &str) {
    let key = |k: &str| KeyVec::from_vec_with_ts(k.as_bytes().to_vec(), 1);
    s.sstables.insert(id, Arc::new(SsTable::create_meta_only(id, size, key(first), key(last))));
}

fn simple(percent: usize, trigger: usize, max_levels: usize) -> SimpleLeveledCompactionController {
    SimpleLeveledCompactionController::new(SimpleLeveledCompactionOptions {
        size_ratio_percent: percent,
        level0_file_num_compaction_trigger: trigger,
        max_levels,
    })
}

#[test]
fn simple_takes_all_of_l0_first() {
    let s = state(&[9, 8], &[(1, &[1, 2]), (2, &[])]);
    assert_eq!(
        simple(200, 2, 2).generate_compaction_task(&s),
        Some(SimpleLeveledCompactionTask {
            upper_level: None,
            upper_level_sst_ids: vec![9, 8],
            lower_level: 1,
            lower_level_sst_ids: vec![1, 2],
            is_lower_level_bottom_level: false,
        })
    );
    let one_level = simple(200, 2, 1).generate_compaction_task(&s).unwrap();
    assert!(one_level.is_lower_level_bottom_level);
}

#[test]
fn simple_compares_neighbours() {
    // 3 tables over 2 are 150 percent.
    let s = state(&[9], &[(1, &[1, 2]), (2, &[3, 4, 5])]);
    assert_eq!(simple(150, 2, 2).generate_compaction_task(&s), None);
    assert_eq!(
        simple(151, 2, 2).generate_compaction_task(&s),
        Some(SimpleLeveledCompactionTask {
            upper_level: Some(1),
            upper_level_sst_ids: vec![1, 2],
            lower_level: 2,
            lower_level_sst_ids: vec![3, 4, 5],
            is_lower_level_bottom_level: true,
        })
    );
    // An empty upper level is passed over.
    let s = state(&[], &[(1, &[]), (2, &[3]), (3, &[])]);
    let task = simple(200, 2, 3).generate_compaction_task(&s).unwrap();
    assert_eq!(task.upper_level, Some(2));
    let s = state(&[], &[(1, &[]), (2, &[]), (3, &[])]);
    assert_eq!(simple(200, 2, 3).generate_compaction_task(&s), None);
}

#[test]
fn simple_looks_no_further_than_the_first_unbalanced_level() {
    // Five levels are wanted and two are there: the first one is unbalanced already.
    let s = state(&[], &[(1, &[1, 2]), (2, &[3])]);
    let task = simple(200, 2, 5).generate_compaction_task(&s).unwrap();
    assert_eq!(task.upper_level, Some(1));
    assert_eq!(task.lower_level, 2);
    assert!(!task.is_lower_level_bottom_level);
    assert!(simple(200, 2, 5).can_choose(&s));
    // Where it is not, the third level is looked for.
    assert!(!simple(50, 2, 5).can_choose(&s));
    assert!(simple(50, 2, 2).can_choose(&s));
    assert!(!simple(50, 0, 2).can_choose(&state(&[], &[])));
}

#[test]
fn controller_tells_for_which_states_it_chooses() {
    let tiered = CompactionController::new(CompactionOptions::Tiered(TIERED));
    assert!(tiered.can_choose(&state(&[], &[])));
    assert!(!tiered.can_choose(&state(&[1], &[])));
    let none = TieredCompactionOptions { num_tiers: 0, ..TIERED };
    let none = CompactionController::new(CompactionOptions::Tiered(none));
    assert!(!none.can_choose(&state(&[], &[])));
    assert!(none.can_choose(&state(&[], &[(1, &[1])])));
    let options = |multiplier, max_levels, base| {
        CompactionController::new(CompactionOptions::Leveled(LeveledCompactionOptions {
            level_size_multiplier: multiplier,
            level0_file_num_compaction_trigger: 1,
            max_levels,
            base_level_size_mb: base,
        }))
    };
    let mut s = state(&[], &[(1, &[]), (2, &[7])]);
    // The table is not known.
    assert!(!options(2, 2, 1).can_choose(&s));
    assert!(options(2, 1, 1).can_choose(&s));
    add_table(&mut s, 7, 2 * MB, "a", "b");
    assert!(options(2, 2, 1).can_choose(&s));
    assert!(!options(2, 0, 1).can_choose(&s));
    assert!(!options(2, 3, 1).can_choose(&s));
    // A size is divided by the multiplier where the last level is larger than the base size.
    assert!(!options(0, 2, 1).can_choose(&s));
    assert!(options(0, 2, 2).can_choose(&s));
    assert!(!options(2, 2, usize::MAX).can_choose(&s));
    s.l0_sstables = vec![8];
    assert!(!options(2, 2, 1).can_choose(&s));
    add_table(&mut s, 8, MB, "a", "b");
    assert!(options(2, 2, 1).can_choose(&s));
    add_table(&mut s, 9, u64::MAX, "c", "d");
    s.levels[1].1 = vec![7, 9];
    assert!(!options(2, 2, 1).can_choose(&s));
    assert!(!CompactionController::new(CompactionOptions::NoCompaction).can_choose(&s));
}

#[test]
fn simple_result_replaces_both_levels() {
    let c = simple(200, 2, 2);
    let s = state(&[9, 8], &[(1, &[1, 2]), (2, &[3])]);
    let task = c.generate_compaction_task(&s).unwrap();
    // A table that was flushed meanwhile stays in L0.
    let later = state(&[10, 9, 8], &[(1, &[1, 2]), (2, &[3])]);
    let (next, removed) = c.apply_compaction_result(&later, &task, &[11, 12]);
    assert_eq!(next.l0_sstables, vec![10]);
    assert_eq!(next.levels, vec![(1, vec![11, 12]), (2, vec![3])]);
    assert_eq!(removed, vec![9, 8, 1, 2]);
    let s = state(&[], &[(1, &[1, 2]), (2, &[3])]);
    let task = c.generate_compaction_task(&s).unwrap();
    let (next, removed) = c.apply_compaction_result(&s, &task, &[11]);
    assert_eq!(next.levels, vec![(1, vec![]), (2, vec![11])]);
    assert_eq!(removed, vec![1, 2, 3]);
}

fn tiered(o: TieredCompactionOptions) -> TieredCompactionController {
    TieredCompactionController::new(o)
}

const TIERED: TieredCompactionOptions = TieredCompactionOptions {
    num_tiers: 3,
    max_size_amplification_percent: 200,
    size_ratio: 1,
    min_merge_width: 2,
    max_merge_width: None,
};

#[test]
fn tiered_waits_for_enough_tiers() {
    let s = state(&[], &[(2, &[2]), (1, &[1])]);
    assert_eq!(tiered(TIERED).generate_compaction_task(&s), None);
}

#[test]
fn tiered_takes_all_tiers_at_the_amplification_limit() {
    // 57 tables over 100 are exactly 57 percent.
    let newest: Vec<usize> = (0..50).collect();
    let middle: Vec<usize> = (50..57).collect();
    let last: Vec<usize> = (57..157).collect();
    let s = state(&[], &[(3, &newest), (2, &middle), (1, &last)]);
    let at = |percent: usize| TieredCompactionOptions {
        max_size_amplification_percent: percent,
        size_ratio: 1000,
        ..TIERED
    };
    let task = tiered(at(57)).generate_compaction_task(&s).unwrap();
    assert_eq!(task.tiers.len(), 3);
    assert!(task.bottom_tier_included);
    let narrow = TieredCompactionOptions { max_merge_width: Some(2), ..at(58) };
    let task = tiered(narrow).generate_compaction_task(&s).unwrap();
    assert_eq!(task.tiers.len(), 2);
    assert!(!task.bottom_tier_included);
}

#[test]
fn tiered_takes_the_tiers_before_a_larger_one() {
    let s = state(&[], &[(5, &[5]), (4, &[4]), (3, &[3]), (1, &[10, 11, 12, 13])]);
    let task = tiered(TIERED).generate_compaction_task(&s).unwrap();
    assert_eq!(
        task,
        TieredCompactionTask {
            tiers: vec![(5, vec![5]), (4, vec![4]), (3, vec![3])],
            bottom_tier_included: false,
        }
    );
}

#[test]
fn tiered_reduces_the_number_of_tiers() {
    let s = state(&[], &[(4, &[4]), (3, &[3]), (2, &[2]), (1, &[1])]);
    let lazy = TieredCompactionOptions { max_size_amplification_percent: 1000, ..TIERED };
    let task = tiered(lazy).generate_compaction_task(&s).unwrap();
    assert_eq!(task.tiers, vec![(4, vec![4]), (3, vec![3]), (2, vec![2])]);
    assert!(!task.bottom_tier_included);
    let narrow = TieredCompactionOptions { max_merge_width: Some(2), ..lazy };
    let task = tiered(narrow).generate_compaction_task(&s).unwrap();
    assert_eq!(task.tiers, vec![(4, vec![4]), (3, vec![3])]);
    let all = TieredCompactionOptions { num_tiers: 4, ..lazy };
    let task = tiered(all).generate_compaction_task(&s).unwrap();
    assert_eq!(task.tiers.len(), 4);
    assert!(task.bottom_tier_included);
}

#[test]
fn tiered_result_stands_behind_what_it_replaces() {
    let c = tiered(TIERED);
    let task = TieredCompactionTask {
        tiers: vec![(3, vec![3]), (2, vec![2, 20])],
        bottom_tier_included: false,
    };
    let s = state(&[], &[(4, &[4]), (3, &[3]), (2, &[2, 20]), (1, &[1])]);
    let (next, removed) = c.apply_compaction_result(&s, &task, &[7, 8]);
    assert_eq!(next.levels, vec![(4, vec![4]), (7, vec![7, 8]), (1, vec![1])]);
    assert_eq!(removed, vec![3, 2, 20]);
    let (next, _) = c.apply_compaction_result(&s, &task, &[]);
    assert_eq!(next.levels, vec![(4, vec![4]), (1, vec![1])]);
}

fn leveled(max_levels: usize) -> LeveledCompactionController {
    LeveledCompactionController::new(LeveledCompactionOptions {
        level_size_multiplier: 2,
        level0_file_num_compaction_trigger: 2,
        max_levels,
        base_level_size_mb: 128,
    })
}

#[test]
fn leveled_sends_l0_to_the_base_level() {
    let mut s = state(&[9, 8], &[(1, &[]), (2, &[]), (3, &[])]);
    add_table(&mut s, 8, MB, "a", "c");
    add_table(&mut s, 9, MB, "b", "d");
    let c = leveled(3);
    assert_eq!(
        c.generate_compaction_task(&s),
        Some(LeveledCompactionTask {
            upper_level: None,
            upper_level_sst_ids: vec![9, 8],
            lower_level: 3,
            lower_level_sst_ids: vec![],
            is_lower_level_bottom_level: true,
        })
    );
    // The last level holds 300 MB: the target of the one above is 150, of the first 75.
    s.levels[2].1 = vec![1, 2];
    add_table(&mut s, 1, 150 * MB, "a", "b");
    add_table(&mut s, 2, 150 * MB, "e", "f");
    let task = c.generate_compaction_task(&s).unwrap();
    assert_eq!(task.lower_level, 1);
    assert!(!task.is_lower_level_bottom_level);
    // It holds 200 MB: the target of the one above is 100, and the first has none.
    add_table(&mut s, 1, 50 * MB, "a", "b");
    let task = c.generate_compaction_task(&s).unwrap();
    assert_eq!(task.lower_level, 2);
}

#[test]
fn leveled_takes_what_overlaps() {
    let mut s = state(&[9, 8], &[(1, &[1, 2, 3, 4])]);
    add_table(&mut s, 8, MB, "c", "d");
    add_table(&mut s, 9, MB, "e", "g");
    add_table(&mut s, 1, MB, "a", "b");
    add_table(&mut s, 2, MB, "b1", "c");
    add_table(&mut s, 3, MB, "d", "f");
    add_table(&mut s, 4, MB, "h", "i");
    let task = leveled(1).generate_compaction_task(&s).unwrap();
    assert_eq!(task.lower_level_sst_ids, vec![2, 3]);
    assert!(task.is_lower_level_bottom_level);
    let (next, removed) = leveled(1).apply_compaction_result(&s, &task, &[], false);
    assert!(next.l0_sstables.is_empty());
    assert_eq!(next.levels, vec![(1, vec![1, 4])]);
    assert_eq!(removed, vec![9, 8, 2, 3]);
}

#[test]
fn leveled_compares_versions_too() {
    // A newer version of a key stands before an older one: the ranges do not overlap.
    let version = |k: &str, ts: u64| KeyVec::from_vec_with_ts(k.as_bytes().to_vec(), ts);
    let mut s = state(&[9, 8], &[(1, &[1])]);
    s.sstables.insert(
        8,
        Arc::new(SsTable::create_meta_only(8, MB, version("c", 4), version("m", 4))),
    );
    s.sstables.insert(
        9,
        Arc::new(SsTable::create_meta_only(9, MB, version("d", 5), version("e", 5))),
    );
    s.sstables.insert(
        1,
        Arc::new(SsTable::create_meta_only(1, MB, version("m", 1), version("n", 1))),
    );
    let task = leveled(1).generate_compaction_task(&s).unwrap();
    assert!(task.lower_level_sst_ids.is_empty());
    s.sstables.insert(
        1,
        Arc::new(SsTable::create_meta_only(1, MB, version("m", 4), version("n", 1))),
    );
    let task = leveled(1).generate_compaction_task(&s).unwrap();
    assert_eq!(task.lower_level_sst_ids, vec![1]);
}

#[test]
fn leveled_takes_the_oldest_table_of_the_fullest_level() {
    // Targets are 100, 200 and 400 MB.
    let mut s = state(&[], &[(1, &[7, 5]), (2, &[6]), (3, &[1, 2])]);
    add_table(&mut s, 7, 60 * MB, "a", "b");
    add_table(&mut s, 5, 60 * MB, "c", "d");
    add_table(&mut s, 6, 210 * MB, "c1", "x");
    add_table(&mut s, 1, 200 * MB, "a", "k");
    add_table(&mut s, 2, 200 * MB, "l", "z");
    let c = leveled(3);
    assert_eq!(
        c.generate_compaction_task(&s),
        Some(LeveledCompactionTask {
            upper_level: Some(1),
            upper_level_sst_ids: vec![5],
            lower_level: 2,
            lower_level_sst_ids: vec![6],
            is_lower_level_bottom_level: false,
        })
    );
    // The second level is at 1.25 now, the first at 1.2.
    add_table(&mut s, 6, 250 * MB, "c1", "x");
    let task = c.generate_compaction_task(&s).unwrap();
    assert_eq!(task.upper_level, Some(2));
    assert_eq!(task.lower_level_sst_ids, vec![1, 2]);
    assert!(task.is_lower_level_bottom_level);
    // Both are at 1.2: the later level goes first.
    add_table(&mut s, 6, 240 * MB, "c1", "x");
    assert_eq!(c.generate_compaction_task(&s).unwrap().upper_level, Some(2));
    // At their targets nothing is due.
    add_table(&mut s, 6, 200 * MB, "c1", "x");
    add_table(&mut s, 5, 40 * MB, "c", "d");
    assert_eq!(c.generate_compaction_task(&s), None);
}

#[test]
fn leveled_result_is_sorted_by_first_key() {
    let mut s = state(&[], &[(1, &[5]), (2, &[1, 2, 3])]);
    for (id, first, last) in [(5, "c", "d"), (1, "a", "b"), (2, "c", "c"), (3, "x", "z")] {
        add_table(&mut s, id, MB, first, last);
    }
    add_table(&mut s, 10, MB, "d", "e");
    add_table(&mut s, 11, MB, "c", "c1");
    let task = LeveledCompactionTask {
        upper_level: Some(1),
        upper_level_sst_ids: vec![5],
        lower_level: 2,
        lower_level_sst_ids: vec![2],
        is_lower_level_bottom_level: true,
    };
    let c = leveled(2);
    let (next, removed) = c.apply_compaction_result(&s, &task, &[10, 11], false);
    assert_eq!(next.levels, vec![(1, vec![]), (2, vec![1, 11, 10, 3])]);
    assert_eq!(removed, vec![5, 2]);
    // In recovery the tables are not loaded yet, and the order is left as it is.
    let (next, _) = c.apply_compaction_result(&s, &task, &[10, 11], true);
    assert_eq!(next.levels, vec![(1, vec![]), (2, vec![1, 3, 10, 11])]);
}

#[test]
fn controller_passes_tasks_on() {
    let options = SimpleLeveledCompactionOptions {
        size_ratio_percent: 200,
        level0_file_num_compaction_trigger: 1,
        max_levels: 1,
    };
    let c = CompactionController::new(CompactionOptions::Simple(options));
    let s = state(&[3], &[(1, &[1])]);
    let task = c.generate_compaction_task(&s).unwrap();
    assert!(matches!(task, CompactionTask::Simple(_)));
    assert!(task.compact_to_bottom_level());
    let (next, removed) = c.apply_compaction_result(&s, &task, &[4], false);
    assert_eq!(next.levels, vec![(1, vec![4])]);
    assert_eq!(removed, vec![3, 1]);
    assert!(c.flush_to_l0());
    assert!(matches!(c.options(), CompactionOptions::Simple(o) if o.size_ratio_percent == 200));
    assert!(CompactionController::new(CompactionOptions::NoCompaction).flush_to_l0());
    let c = CompactionController::new(CompactionOptions::Tiered(TIERED));
    assert!(!c.flush_to_l0());
    assert!(matches!(c.options(), CompactionOptions::Tiered(o) if o.num_tiers == TIERED.num_tiers));
    assert_eq!(c.generate_compaction_task(&state(&[], &[(1, &[1])])), None);
    let c = CompactionController::new(CompactionOptions::Leveled(LeveledCompactionOptions {
        level_size_multiplier: 2,
        level0_file_num_compaction_trigger: 2,
        max_levels: 1,
        base_level_size_mb: 128,
    }));
    assert!(c.flush_to_l0());
    assert_eq!(c.generate_compaction_task(&state(&[], &[(1, &[])])), None);
}

/// The numbers in L0 and the levels, in order.
fn listed(s: &LsmStorageState) -> Vec<usize> {
    let mut out = s.l0_sstables.clone();
    out.extend(s.levels.iter().flat_map(|(_, ids)| ids.clone()));
    out.sort();
    out
}

#[test]
fn results_replace_exactly_what_tasks_name() {
    let simple = CompactionOptions::Simple(SimpleLeveledCompactionOptions {
        size_ratio_percent: 200,
        level0_file_num_compaction_trigger: 5,
        max_levels: 2,
    });
    let leveled = CompactionOptions::Leveled(LeveledCompactionOptions {
        level_size_multiplier: 2,
        level0_file_num_compaction_trigger: 1,
        max_levels: 2,
        base_level_size_mb: 1,
    });
    for (options, gone) in [
        (simple, vec![2, 3, 4, 5]),
        (leveled, vec![1, 2]),
        (CompactionOptions::Tiered(TIERED), vec![2, 3, 4, 5]),
    ] {
        let c = CompactionController::new(options);
        let mut s = state(&[1], &[(1, &[2, 3]), (2, &[4, 5])]);
        if !c.flush_to_l0() {
            s.l0_sstables.clear();
            s.levels.push((3, Vec::new()));
            s.levels.push((4, Vec::new()));
        }
        for (id, first, last) in
            [(1, "c", "d"), (2, "a", "c"), (3, "x", "y"), (4, "b", "d"), (5, "e", "f")]
        {
            add_table(&mut s, id, MB, first, last);
        }
        for id in [10, 11] {
            add_table(&mut s, id, MB, "c", "d");
        }
        let task = c.generate_compaction_task(&s).unwrap();
        let (next, mut removed) = c.apply_compaction_result(&s, &task, &[10, 11], false);
        removed.sort();
        assert_eq!(removed, gone);
        let mut expected: Vec<usize> =
            listed(&s).into_iter().filter(|id| !gone.contains(id)).collect();
        expected.extend([10, 11]);
        assert_eq!(listed(&next), expected);
        assert_eq!(next.sstables.len(), s.sstables.len());
    }
}
