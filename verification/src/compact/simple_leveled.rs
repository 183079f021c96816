//! Compaction of whole levels by the number of their tables.

use vstd::prelude::*;

use super::ids;
use super::LevelTaskView;
use crate::lsm_storage::{LsmStorageState, StateView};

verus! {

/// When levels are compacted.
#[derive(Debug, Clone, Copy)]
pub struct SimpleLeveledCompactionOptions {
    pub size_ratio_percent: usize,
    pub level0_file_num_compaction_trigger: usize,
    pub max_levels: usize,
}

/// A task. Without an upper level it compacts L0.
#[derive(Debug, PartialEq, Eq)]
pub struct SimpleLeveledCompactionTask {
    pub upper_level: Option<usize>,
    pub upper_level_sst_ids: Vec<usize>,
    pub lower_level: usize,
    pub lower_level_sst_ids: Vec<usize>,
    pub is_lower_level_bottom_level: bool,
}

impl View for SimpleLeveledCompactionTask {
    type V = LevelTaskView;

    open spec fn view(&self) -> LevelTaskView {
        LevelTaskView {
            upper_level: self.upper_level,
            upper: self.upper_level_sst_ids@,
            lower_level: self.lower_level,
            lower: self.lower_level_sst_ids@,
            to_bottom: self.is_lower_level_bottom_level,
        }
    }
}

/// L0 has enough tables to be compacted.
pub open spec fn l0_full(s: StateView, o: SimpleLeveledCompactionOptions) -> bool {
    s.l0.len() >= o.level0_file_num_compaction_trigger
}

/// Level `i` has tables, and the level below it has less than the wanted percentage of their
/// number.
pub open spec fn unbalanced(s: StateView, o: SimpleLeveledCompactionOptions, i: int) -> bool {
    let upper = s.levels[i - 1].1.len();
    let lower = s.levels[i].1.len();
    upper > 0 && lower * 100 < o.size_ratio_percent * upper
}

/// The state has the levels from level `i` on that are looked at: down to the one below the first
/// unbalanced level, and all levels where there is none.
pub open spec fn levels_from(s: StateView, o: SimpleLeveledCompactionOptions, i: int) -> bool
    decreases o.max_levels - i,
{
    i >= o.max_levels || s.levels.len() > i && (unbalanced(s, o, i) || levels_from(s, o, i + 1))
}

/// The state has the levels that are looked at.
pub open spec fn enough_levels(s: StateView, o: SimpleLeveledCompactionOptions) -> bool {
    if l0_full(s, o) {
        s.levels.len() >= 1
    } else {
        levels_from(s, o, 1)
    }
}

/// The task for the first unbalanced level from level `i` on.
pub open spec fn ratio_task(
    s: StateView,
    o: SimpleLeveledCompactionOptions,
    i: int,
) -> Option<LevelTaskView>
    decreases o.max_levels - i,
{
    if i >= o.max_levels {
        None
    } else if unbalanced(s, o, i) {
        Some(
            LevelTaskView {
                upper_level: Some(i as usize),
                upper: s.levels[i - 1].1,
                lower_level: (i + 1) as usize,
                lower: s.levels[i].1,
                to_bottom: i + 1 == o.max_levels,
            },
        )
    } else {
        ratio_task(s, o, i + 1)
    }
}

/// The task for a state: L0 first, then the first unbalanced level.
pub open spec fn simple_task(s: StateView, o: SimpleLeveledCompactionOptions) -> Option<
    LevelTaskView,
> {
    if l0_full(s, o) {
        Some(
            LevelTaskView {
                upper_level: None,
                upper: s.l0,
                lower_level: 1,
                lower: s.levels[0].1,
                to_bottom: o.max_levels == 1,
            },
        )
    } else {
        ratio_task(s, o, 1)
    }
}

/// The state without the tables of the upper level of a task.
pub open spec fn upper_taken(s: StateView, t: LevelTaskView) -> StateView {
    match t.upper_level {
        Some(u) => s.with_level(u - 1, Seq::empty()),
        None => s.with_l0(ids::without(s.l0, t.upper.to_set())),
    }
}

/// The tables of the task stand where the task says.
pub open spec fn simple_applies(s: StateView, t: LevelTaskView) -> bool {
    &&& match t.upper_level {
        Some(u) => 1 <= u <= s.levels.len() && s.levels[u - 1].1 == t.upper,
        None => ids::covers(s.l0, t.upper),
    }
    &&& 1 <= t.lower_level <= s.levels.len()
    &&& upper_taken(s, t).levels[t.lower_level - 1].1 == t.lower
}

/// The state in which the tables of a task are replaced by its output.
pub open spec fn simple_applied(s: StateView, t: LevelTaskView, output: Seq<usize>) -> StateView {
    upper_taken(s, t).with_level(t.lower_level - 1, output)
}

/// A generated task applies to the state that it was generated from, also when more tables were
/// flushed to L0 meanwhile.
pub proof fn lemma_simple_task_applies(
    s: StateView,
    o: SimpleLeveledCompactionOptions,
    flushed: Seq<usize>,
)
    requires
        enough_levels(s, o),
        simple_task(s, o) is Some,
    ensures
        simple_applies(s.with_l0(flushed + s.l0), simple_task(s, o)->0),
{
    if l0_full(s, o) {
        assert forall|i: int| 0 <= i < s.l0.len() implies (flushed + s.l0).contains(
            #[trigger] s.l0[i],
        ) by {
            assert((flushed + s.l0)[flushed.len() + i] == s.l0[i]);
        }
    } else {
        lemma_ratio_task(s, o, 1);
    }
}

pub(crate) proof fn lemma_ratio_task(s: StateView, o: SimpleLeveledCompactionOptions, i: int)
    requires
        i >= 1,
        levels_from(s, o, i),
        ratio_task(s, o, i) is Some,
    ensures
        ({
            let t = ratio_task(s, o, i)->0;
            &&& t.upper_level matches Some(u)
            &&& 1 <= u < s.levels.len()
            &&& t.lower_level == u + 1
            &&& t.upper == s.levels[u - 1].1
            &&& t.lower == s.levels[u as int].1
        }),
    decreases o.max_levels - i,
{
    if !unbalanced(s, o, i) {
        lemma_ratio_task(s, o, i + 1);
    }
}

/// Level `u` and the next one are in balance: level `u` has no tables, or the next one has at least
/// the given percentage of their number.
spec fn in_balance(s: StateView, o: SimpleLeveledCompactionOptions, u: int) -> bool {
    s.levels[u - 1].1.len() == 0 || s.levels[u].1.len() * 100 >= o.size_ratio_percent
        * s.levels[u - 1].1.len()
}

proof fn lemma_ratio_exactly(s: StateView, o: SimpleLeveledCompactionOptions, i: int)
    requires
        i >= 1,
    ensures
        match ratio_task(s, o, i) {
            None => forall|u: int| i <= u < o.max_levels ==> #[trigger] in_balance(s, o, u),
            Some(t) => {
                &&& t.upper_level matches Some(u)
                &&& i <= u < o.max_levels
                &&& !in_balance(s, o, u as int)
                &&& forall|w: int| i <= w < u ==> #[trigger] in_balance(s, o, w)
                &&& t.upper == s.levels[u - 1].1
                &&& t.lower_level == u + 1
                &&& t.lower == s.levels[u as int].1
                &&& t.to_bottom == (u + 1 == o.max_levels)
            },
        },
    decreases o.max_levels - i,
{
    if i < o.max_levels {
        if in_balance(s, o, i) {
            lemma_ratio_exactly(s, o, i + 1);
        }
    }
}

/// Nothing is to be done exactly if L0 has fewer tables than its trigger and every level above the
/// last has no tables or is followed by one with at least the given percentage of their number.
pub proof fn lemma_simple_idle(s: StateView, o: SimpleLeveledCompactionOptions)
    ensures
        simple_task(s, o) is None <==> s.l0.len() < o.level0_file_num_compaction_trigger && forall|
            u: int,
        |
            1 <= u < o.max_levels ==> s.levels[u - 1].1.len() == 0 || (#[trigger] s.levels[u]).1.len()
                * 100 >= o.size_ratio_percent * s.levels[u - 1].1.len(),
{
    lemma_ratio_exactly(s, o, 1);
    if simple_task(s, o) is None {
        assert forall|u: int| 1 <= u < o.max_levels implies s.levels[u - 1].1.len() == 0 || (
        #[trigger] s.levels[u]).1.len() * 100 >= o.size_ratio_percent * s.levels[u - 1].1.len() by {
            assert(in_balance(s, o, u));
        }
    }
}

/// As soon as L0 has as many tables as its trigger, all of it is compacted with all of level 1.
pub proof fn lemma_simple_l0(s: StateView, o: SimpleLeveledCompactionOptions)
    requires
        s.l0.len() >= o.level0_file_num_compaction_trigger,
    ensures
        simple_task(s, o) matches Some(t) && {
            &&& t.upper_level is None
            &&& t.upper == s.l0
            &&& t.lower_level == 1
            &&& t.lower == s.levels[0].1
            &&& t.to_bottom == (o.max_levels == 1)
        },
{
}

/// Below the trigger of L0, the task takes the least level that has tables and is followed by one
/// with less than the given percentage of their number. It takes all tables of both.
pub proof fn lemma_simple_least(s: StateView, o: SimpleLeveledCompactionOptions, u: int)
    requires
        s.l0.len() < o.level0_file_num_compaction_trigger,
        1 <= u < o.max_levels,
        s.levels[u - 1].1.len() > 0,
        s.levels[u].1.len() * 100 < o.size_ratio_percent * s.levels[u - 1].1.len(),
        forall|w: int|
            1 <= w < u ==> s.levels[w - 1].1.len() == 0 || (#[trigger] s.levels[w]).1.len() * 100
                >= o.size_ratio_percent * s.levels[w - 1].1.len(),
    ensures
        simple_task(s, o) matches Some(t) && {
            &&& t.upper_level == Some(u as usize)
            &&& t.upper == s.levels[u - 1].1
            &&& t.lower_level == u + 1
            &&& t.lower == s.levels[u].1
            &&& t.to_bottom == (u + 1 == o.max_levels)
        },
{
    lemma_ratio_exactly(s, o, 1);
    assert(!in_balance(s, o, u));
    match simple_task(s, o) {
        None => {},
        Some(t) => {
            let w = t.upper_level->0 as int;
            if w < u {
                assert(s.levels[w].1.len() * 100 >= o.size_ratio_percent * s.levels[w - 1].1.len()
                    || s.levels[w - 1].1.len() == 0);
            }
        },
    }
}

/// A finished task leaves its upper level empty and exactly the output in its lower level. L0 loses
/// the tables of the task and keeps the others in their order. Every other level, and the numbers of
/// all levels, stay as they were.
pub proof fn lemma_simple_applied(s: StateView, t: LevelTaskView, output: Seq<usize>, i: int)
    requires
        1 <= t.lower_level <= s.levels.len(),
        t.upper_level matches Some(u) ==> 1 <= u <= s.levels.len() && u != t.lower_level,
        s.l0.no_duplicates(),
        0 <= i < s.levels.len(),
    ensures
        ({
            let r = simple_applied(s, t, output);
            &&& r.tables == s.tables
            &&& r.levels.len() == s.levels.len()
            &&& r.levels[i].0 == s.levels[i].0
            &&& i == t.lower_level - 1 ==> r.levels[i].1 == output
            &&& t.upper_level matches Some(u) ==> {
                &&& i == u - 1 ==> r.levels[i].1.len() == 0
                &&& i != u - 1 && i != t.lower_level - 1 ==> r.levels[i].1 == s.levels[i].1
                &&& r.l0 == s.l0
            }
            &&& t.upper_level is None ==> {
                &&& i != t.lower_level - 1 ==> r.levels[i].1 == s.levels[i].1
                &&& r.l0 == s.l0.filter(|id: usize| !t.upper.contains(id))
            }
        }),
{
    ids::lemma_without(s.l0, t.upper.to_set());
    assert((|id: usize| !t.upper.to_set().contains(id)) =~= (|id: usize| !t.upper.contains(id)));
}

/// Compacts whole levels.
pub struct SimpleLeveledCompactionController {
    pub(crate) options: SimpleLeveledCompactionOptions,
}

impl SimpleLeveledCompactionController {
    /// The options.
    pub closed spec fn opts(&self) -> SimpleLeveledCompactionOptions {
        self.options
    }

    /// A controller with the given options.
    pub fn new(options: SimpleLeveledCompactionOptions) -> (r: Self)
        ensures
            r.opts() == options,
    {
        SimpleLeveledCompactionController { options }
    }

    /// The options.
    pub fn options(&self) -> (r: SimpleLeveledCompactionOptions)
        ensures
            r == self.opts(),
    {
        self.options
    }

    /// Whether a task can be chosen: the state has the levels that are looked at.
    pub fn can_choose(&self, snapshot: &LsmStorageState) -> (r: bool)
        ensures
            r == enough_levels(snapshot@, self.opts()),
    {
        let ghost s = snapshot@;
        let ghost o = self.options;
        if snapshot.l0_sstables.len() >= self.options.level0_file_num_compaction_trigger {
            return snapshot.levels.len() >= 1;
        }
        let mut i: usize = 1;
        while i < self.options.max_levels
            invariant
                1 <= i,
                s == snapshot@,
                o == self.options,
                !l0_full(s, o),
                levels_from(s, o, 1) == levels_from(s, o, i as int),
            decreases self.options.max_levels - i,
        {
            if snapshot.levels.len() <= i {
                return false;
            }
            assert(s.levels[i - 1].1 == snapshot.levels@[i - 1].1@);
            assert(s.levels[i as int].1 == snapshot.levels@[i as int].1@);
            let upper: usize = snapshot.levels[i - 1].1.len();
            let lower: usize = snapshot.levels[i].1.len();
            if upper > 0 && below_percent(lower, upper, self.options.size_ratio_percent) {
                return true;
            }
            i += 1;
        }
        true
    }

    /// The task for a state, if there is anything to compact.
    pub fn generate_compaction_task(&self, snapshot: &LsmStorageState) -> (r: Option<
        SimpleLeveledCompactionTask,
    >)
        requires
            enough_levels(snapshot@, self.opts()),
        ensures
            match r {
                Some(t) => simple_task(snapshot@, self.opts()) == Some(t@),
                None => simple_task(snapshot@, self.opts()) is None,
            },
    {
        let ghost s = snapshot@;
        let ghost o = self.options;
        if snapshot.l0_sstables.len() >= self.options.level0_file_num_compaction_trigger {
            let t = SimpleLeveledCompactionTask {
                upper_level: None,
                upper_level_sst_ids: ids::copy_ids(&snapshot.l0_sstables),
                lower_level: 1,
                lower_level_sst_ids: ids::copy_ids(&snapshot.levels[0].1),
                is_lower_level_bottom_level: self.options.max_levels == 1,
            };
            return Some(t);
        }
        let mut i: usize = 1;
        while i < self.options.max_levels
            invariant
                1 <= i,
                s == snapshot@,
                o == self.options,
                levels_from(s, o, i as int),
                simple_task(s, o) == ratio_task(s, o, i as int),
            decreases self.options.max_levels - i,
        {
            assert(s.levels[i - 1].1 == snapshot.levels@[i - 1].1@);
            assert(s.levels[i as int].1 == snapshot.levels@[i as int].1@);
            let upper_size: usize = snapshot.levels[i - 1].1.len();
            let lower_size: usize = snapshot.levels[i].1.len();
            if upper_size > 0 && below_percent(
                lower_size,
                upper_size,
                self.options.size_ratio_percent,
            ) {
                return Some(
                    SimpleLeveledCompactionTask {
                        upper_level: Some(i),
                        upper_level_sst_ids: ids::copy_ids(&snapshot.levels[i - 1].1),
                        lower_level: i + 1,
                        lower_level_sst_ids: ids::copy_ids(&snapshot.levels[i].1),
                        is_lower_level_bottom_level: i + 1 == self.options.max_levels,
                    },
                );
            }
            i += 1;
        }
        None
    }

    /// The state in which the tables of a task are replaced by its output, and the tables that are
    /// no longer needed.
    pub fn apply_compaction_result(
        &self,
        snapshot: &LsmStorageState,
        task: &SimpleLeveledCompactionTask,
        output: &[usize],
    ) -> (r: (LsmStorageState, Vec<usize>))
        requires
            simple_applies(snapshot@, task@),
        ensures
            r.0@ == simple_applied(snapshot@, task@, output@),
            r.1@ == task@.upper + task@.lower,
            snapshot.wf() ==> r.0.wf(),
    {
        let mut state = snapshot.snapshot();
        let mut files_to_remove: Vec<usize> = ids::copy_ids(&task.upper_level_sst_ids);
        match task.upper_level {
            Some(upper_level) => {
                state.levels[upper_level - 1].1 = Vec::new();
            },
            None => {
                state.l0_sstables = ids::remove_ids(&state.l0_sstables, &task.upper_level_sst_ids);
            },
        }
        assert(state@ =~= upper_taken(snapshot@, task@));
        ids::extend_ids(&mut files_to_remove, task.lower_level_sst_ids.as_slice());
        let mut lower: Vec<usize> = Vec::new();
        ids::extend_ids(&mut lower, output);
        assert(lower@ =~= output@);
        state.levels[task.lower_level - 1].1 = lower;
        assert(state@ =~= simple_applied(snapshot@, task@, output@));
        (state, files_to_remove)
    }
}

/// Whether `part` is less than `percent` percent of `whole`.
fn below_percent(part: usize, whole: usize, percent: usize) -> (r: bool)
    ensures
        r == (part * 100 < percent * whole),
{
    assert(percent * whole <= 0xffff_ffff_ffff_ffff * 0xffff_ffff_ffff_ffff) by (nonlinear_arith)
        requires
            percent <= 0xffff_ffff_ffff_ffff,
            whole <= 0xffff_ffff_ffff_ffff,
    ;
    assert(0 <= percent * whole) by (nonlinear_arith)
        requires
            percent >= 0,
            whole >= 0,
    ;
    (part as u128) * 100 < (percent as u128) * (whole as u128)
}

} // verus!
