//! Compaction of single tables by the sizes of the levels.

use vstd::prelude::*;

use super::ids;
use super::LevelTaskView;
use crate::key;
use crate::key::{Key, KeyBytes};
use crate::lsm_storage::{LsmStorageState, StateView};
use crate::table::TableView;

verus! {

/// A task. Without an upper level it compacts L0.
#[derive(Debug, PartialEq, Eq)]
pub struct LeveledCompactionTask {
    pub upper_level: Option<usize>,
    pub upper_level_sst_ids: Vec<usize>,
    pub lower_level: usize,
    pub lower_level_sst_ids: Vec<usize>,
    pub is_lower_level_bottom_level: bool,
}

impl View for LeveledCompactionTask {
    type V = LevelTaskView;

    open spec fn view(&self) -> LevelTaskView {
        LevelTaskView {
            upper_level: self.upper_level,
            upper: self.upper_level_sst_ids@,
            lower_level: self.lower_level,
            lower: self.lower_level_sst_ids@,
            to_bottom: self.is_lower_level_bottom_level,
        }
    }
}

/// When levels are compacted.
#[derive(Debug, Clone, Copy)]
pub struct LeveledCompactionOptions {
    pub level_size_multiplier: usize,
    pub level0_file_num_compaction_trigger: usize,
    pub max_levels: usize,
    pub base_level_size_mb: usize,
}

/// The smallest first key of tables.
pub open spec fn begin_key(tables: Map<usize, TableView>, list: Seq<usize>) -> Key
    decreases list.len(),
{
    let k = tables[list.last()].first_key;
    if list.len() <= 1 || key::key_lt(k, begin_key(tables, list.drop_last())) {
        k
    } else {
        begin_key(tables, list.drop_last())
    }
}

/// The greatest last key of tables.
pub open spec fn end_key(tables: Map<usize, TableView>, list: Seq<usize>) -> Key
    decreases list.len(),
{
    let k = tables[list.last()].last_key;
    if list.len() <= 1 || key::key_lt(end_key(tables, list.drop_last()), k) {
        k
    } else {
        end_key(tables, list.drop_last())
    }
}

/// The table has keys in the range.
pub open spec fn overlaps(t: TableView, begin: Key, end: Key) -> bool {
    !(key::key_lt(t.last_key, begin) || key::key_lt(end, t.first_key))
}

/// The tables of a level that overlap a range.
pub open spec fn overlapping(
    tables: Map<usize, TableView>,
    level: Seq<usize>,
    begin: Key,
    end: Key,
) -> Seq<usize>
    decreases level.len(),
{
    if level.len() == 0 {
        Seq::empty()
    } else {
        let init = overlapping(tables, level.drop_last(), begin, end);
        if overlaps(tables[level.last()], begin, end) {
            init.push(level.last())
        } else {
            init
        }
    }
}

/// The tables of a level that overlap the key range of some tables.
pub open spec fn overlapping_ssts(s: StateView, list: Seq<usize>, in_level: int) -> Seq<usize> {
    overlapping(
        s.tables,
        s.levels[in_level - 1].1,
        begin_key(s.tables, list),
        end_key(s.tables, list),
    )
}

/// The size of tables together.
pub open spec fn size_of(tables: Map<usize, TableView>, list: Seq<usize>) -> nat
    decreases list.len(),
{
    if list.len() == 0 {
        0
    } else {
        size_of(tables, list.drop_last()) + tables[list.last()].size as nat
    }
}

/// The size of level `i`, counted from 0.
pub open spec fn real_size(s: StateView, i: int) -> nat {
    size_of(s.tables, s.levels[i].1)
}

/// The size that the first level aims at, in bytes.
pub open spec fn base_size(o: LeveledCompactionOptions) -> nat {
    (o.base_level_size_mb * 1024 * 1024) as nat
}

/// The size that level `i` aims at. The last level aims at its own size, at least at the base size.
/// A level above one that aims at more than the base size aims at a fraction of it, other levels
/// aim at nothing.
pub open spec fn target_size(s: StateView, o: LeveledCompactionOptions, i: int) -> nat
    decreases o.max_levels - i,
{
    if i >= o.max_levels - 1 {
        if real_size(s, o.max_levels - 1) > base_size(o) {
            real_size(s, o.max_levels - 1)
        } else {
            base_size(o)
        }
    } else if target_size(s, o, i + 1) > base_size(o) {
        target_size(s, o, i + 1) / (o.level_size_multiplier as nat)
    } else {
        0
    }
}

/// The first level from level `i` on, counted from 0, that aims at something, and the last level
/// where there is none. The result counts from 1.
pub open spec fn base_level(s: StateView, o: LeveledCompactionOptions, i: int) -> int
    decreases o.max_levels - i,
{
    if i >= o.max_levels - 1 {
        o.max_levels as int
    } else if target_size(s, o, i) > 0 {
        i + 1
    } else {
        base_level(s, o, i + 1)
    }
}

/// The level is larger than it aims at.
pub open spec fn overfull(s: StateView, o: LeveledCompactionOptions, i: int) -> bool {
    target_size(s, o, i) > 0 && real_size(s, i) > target_size(s, o, i)
}

/// Of the first `n` levels, the one that is the largest in relation to what it aims at, among those
/// that are larger than they aim at. On a tie it is the lowest one.
pub open spec fn fullest(s: StateView, o: LeveledCompactionOptions, n: int) -> Option<int>
    decreases n,
{
    if n <= 0 {
        None
    } else {
        let best = fullest(s, o, n - 1);
        let i = n - 1;
        if !overfull(s, o, i) {
            best
        } else {
            match best {
                None => Some(i),
                Some(b) => if real_size(s, i) * target_size(s, o, b) >= real_size(s, b)
                    * target_size(s, o, i) {
                    Some(i)
                } else {
                    Some(b)
                },
            }
        }
    }
}

/// The smallest number of a list.
pub open spec fn oldest(list: Seq<usize>) -> usize
    decreases list.len(),
{
    if list.len() <= 1 || list.last() < oldest(list.drop_last()) {
        list.last()
    } else {
        oldest(list.drop_last())
    }
}

/// L0 has enough tables to be compacted.
pub open spec fn l0_full(s: StateView, o: LeveledCompactionOptions) -> bool {
    s.l0.len() >= o.level0_file_num_compaction_trigger
}

/// The task for a state: L0 into the first level that aims at something, otherwise the oldest table
/// of the fullest level into the next level.
pub open spec fn leveled_task(s: StateView, o: LeveledCompactionOptions) -> Option<LevelTaskView> {
    if l0_full(s, o) {
        let base = base_level(s, o, 0);
        Some(
            LevelTaskView {
                upper_level: None,
                upper: s.l0,
                lower_level: base as usize,
                lower: overlapping_ssts(s, s.l0, base),
                to_bottom: base == o.max_levels,
            },
        )
    } else {
        match fullest(s, o, o.max_levels as int) {
            None => None,
            Some(i) => {
                let selected = seq![oldest(s.levels[i].1)];
                Some(
                    LevelTaskView {
                        upper_level: Some((i + 1) as usize),
                        upper: selected,
                        lower_level: (i + 2) as usize,
                        lower: overlapping_ssts(s, selected, i + 2),
                        to_bottom: i + 2 == o.max_levels,
                    },
                )
            },
        }
    }
}

/// The state has the levels that the options speak of and knows their tables, sizes can be
/// represented, no size is divided by zero, and L0 is not compacted while it is empty.
pub open spec fn plannable(s: StateView, o: LeveledCompactionOptions) -> bool {
    &&& 1 <= o.max_levels <= s.levels.len()
    &&& forall|i: int| 0 <= i < o.max_levels ==> #[trigger] level_known(s, i)
    &&& base_size(o) <= usize::MAX
    &&& o.level_size_multiplier > 0 || o.max_levels == 1 || real_size(s, o.max_levels - 1)
        <= base_size(o)
    &&& l0_full(s, o) ==> s.l0.len() > 0 && s.knows(s.l0)
}

pub open spec fn level_known(s: StateView, i: int) -> bool {
    s.knows(s.levels[i].1) && real_size(s, i) <= usize::MAX
}

/// The state without the tables of the upper level of a task.
pub open spec fn upper_taken(s: StateView, t: LevelTaskView) -> StateView {
    match t.upper_level {
        Some(u) => s.with_level(u - 1, ids::without(s.levels[u - 1].1, t.upper.to_set())),
        None => s.with_l0(ids::without(s.l0, t.upper.to_set())),
    }
}

/// The tables of the lower level after a task, before they are sorted.
pub open spec fn lower_merged(s: StateView, t: LevelTaskView, output: Seq<usize>) -> Seq<usize> {
    ids::without(upper_taken(s, t).levels[t.lower_level - 1].1, t.lower.to_set()) + output
}

/// The tables of the task stand where the task says. Unless the state is being recovered, the
/// tables that have to be sorted are known.
pub open spec fn leveled_applies(
    s: StateView,
    t: LevelTaskView,
    output: Seq<usize>,
    in_recovery: bool,
) -> bool {
    &&& match t.upper_level {
        Some(u) => 1 <= u <= s.levels.len() && ids::covers(s.levels[u - 1].1, t.upper),
        None => ids::covers(s.l0, t.upper),
    }
    &&& 1 <= t.lower_level <= s.levels.len()
    &&& ids::covers(upper_taken(s, t).levels[t.lower_level - 1].1, t.lower)
    &&& !in_recovery && lower_merged(s, t, output).len() >= 2 ==> s.knows(
        lower_merged(s, t, output),
    )
}

/// The state in which the tables of a task are replaced by its output.
pub open spec fn leveled_applied(
    s: StateView,
    t: LevelTaskView,
    output: Seq<usize>,
    in_recovery: bool,
) -> StateView {
    let merged = lower_merged(s, t, output);
    upper_taken(s, t).with_level(
        t.lower_level - 1,
        if in_recovery {
            merged
        } else {
            ids::sorted_by_first_key(s.tables, merged)
        },
    )
}

proof fn lemma_size_take(tables: Map<usize, TableView>, list: Seq<usize>, i: int)
    requires
        0 <= i <= list.len(),
    ensures
        size_of(tables, list.take(i)) <= size_of(tables, list),
    decreases list.len(),
{
    if i < list.len() {
        assert(list.drop_last().take(i) =~= list.take(i));
        lemma_size_take(tables, list.drop_last(), i);
    } else {
        assert(list.take(i) =~= list);
    }
}

/// No level aims at more than the last one does.
proof fn lemma_target_bounded(s: StateView, o: LeveledCompactionOptions, i: int)
    requires
        plannable(s, o),
        0 <= i < o.max_levels,
    ensures
        target_size(s, o, i) <= target_size(s, o, o.max_levels - 1),
        i < o.max_levels - 1 && target_size(s, o, i + 1) > base_size(o) ==> o.level_size_multiplier
            > 0,
        target_size(s, o, i) <= usize::MAX,
    decreases o.max_levels - i,
{
    assert(level_known(s, o.max_levels - 1));
    if i < o.max_levels - 1 {
        lemma_target_bounded(s, o, i + 1);
        if target_size(s, o, i + 1) > base_size(o) {
            let t = target_size(s, o, i + 1);
            let m = o.level_size_multiplier as nat;
            assert(target_size(s, o, o.max_levels - 1) > base_size(o));
            assert(t / m <= t) by (nonlinear_arith)
                requires
                    m > 0,
                    t >= 0,
            ;
        }
    }
}

pub(crate) proof fn lemma_base_level(s: StateView, o: LeveledCompactionOptions, i: int)
    requires
        o.max_levels >= 1,
        i >= 0,
    ensures
        1 <= base_level(s, o, i) <= o.max_levels,
    decreases o.max_levels - i,
{
    if i < o.max_levels - 1 {
        lemma_base_level(s, o, i + 1);
    }
}

/// The last level is never larger than it aims at, so the fullest level has a next level.
pub(crate) proof fn lemma_fullest(s: StateView, o: LeveledCompactionOptions, n: int)
    requires
        0 <= n <= o.max_levels,
    ensures
        fullest(s, o, n) matches Some(i) ==> 0 <= i < n && i < o.max_levels - 1 && overfull(s, o, i),
    decreases n,
{
    if n > 0 {
        lemma_fullest(s, o, n - 1);
    }
}

pub(crate) proof fn lemma_overlapping(
    tables: Map<usize, TableView>,
    level: Seq<usize>,
    begin: Key,
    end: Key,
    id: usize,
)
    ensures
        overlapping(tables, level, begin, end).contains(id) <==> level.contains(id) && overlaps(
            tables[id],
            begin,
            end,
        ),
    decreases level.len(),
{
    if level.len() > 0 {
        let init = level.drop_last();
        let all = overlapping(tables, level, begin, end);
        let some = overlapping(tables, init, begin, end);
        lemma_overlapping(tables, init, begin, end, id);
        if all.contains(id) {
            let i = choose|i: int| 0 <= i < all.len() && all[i] == id;
            if i < some.len() {
                assert(some[i] == id);
                let j = choose|j: int| 0 <= j < init.len() && init[j] == id;
                assert(level[j] == id);
            } else {
                assert(level[level.len() - 1] == id);
            }
        }
        if level.contains(id) && overlaps(tables[id], begin, end) {
            let i = choose|i: int| 0 <= i < level.len() && level[i] == id;
            if i < init.len() {
                assert(init[i] == id);
                let j = choose|j: int| 0 <= j < some.len() && some[j] == id;
                assert(all[j] == id);
            } else {
                assert(all[all.len() - 1] == id);
            }
        }
    }
}

pub(crate) proof fn lemma_oldest(list: Seq<usize>)
    requires
        list.len() > 0,
    ensures
        list.contains(oldest(list)),
        forall|i: int| 0 <= i < list.len() ==> oldest(list) <= #[trigger] list[i],
    decreases list.len(),
{
    if list.len() > 1 {
        let init = list.drop_last();
        lemma_oldest(init);
        let i = choose|i: int| 0 <= i < init.len() && init[i] == oldest(init);
        assert(list[i] == oldest(init));
        assert(list[list.len() - 1] == list.last());
        assert forall|j: int| 0 <= j < list.len() implies oldest(list) <= #[trigger] list[j] by {
            if j < init.len() {
                assert(init[j] == list[j]);
            }
        }
    } else {
        assert(list[0] == oldest(list));
    }
}

pub(crate) proof fn lemma_without_subset(list: Seq<usize>, set: Set<usize>, i: int)
    requires
        0 <= i < ids::without(list, set).len(),
    ensures
        list.contains(ids::without(list, set)[i]),
    decreases list.len(),
{
    let rest = list.drop_first();
    let r = ids::without(list, set);
    if set.contains(list[0]) {
        lemma_without_subset(rest, set.remove(list[0]), i);
        let j = choose|j: int| 0 <= j < rest.len() && rest[j] == r[i];
        assert(list[j + 1] == r[i]);
    } else if i > 0 {
        let more = ids::without(rest, set);
        assert(r == seq![list[0]] + more);
        lemma_without_subset(rest, set, i - 1);
        let j = choose|j: int| 0 <= j < rest.len() && rest[j] == more[i - 1];
        assert(list[j + 1] == r[i]);
    } else {
        assert(list[0] == r[0]);
    }
}

/// A generated task applies to the state that it was generated from once the output tables are
/// known, also when more tables were flushed to L0 meanwhile.
pub proof fn lemma_leveled_task_applies(
    s: StateView,
    o: LeveledCompactionOptions,
    now: StateView,
    flushed: Seq<usize>,
    output: Seq<usize>,
    in_recovery: bool,
)
    requires
        plannable(s, o),
        leveled_task(s, o) is Some,
        now.l0 == flushed + s.l0,
        now.levels == s.levels,
        s.tables.dom().subset_of(now.tables.dom()),
        now.knows(output),
    ensures
        leveled_applies(now, leveled_task(s, o)->0, output, in_recovery),
{
    let t = leveled_task(s, o)->0;
    let low = t.lower_level - 1;
    if l0_full(s, o) {
        lemma_base_level(s, o, 0);
        assert forall|i: int| 0 <= i < s.l0.len() implies now.l0.contains(#[trigger] s.l0[i]) by {
            assert(now.l0[flushed.len() + i] == s.l0[i]);
        }
    } else {
        lemma_fullest(s, o, o.max_levels as int);
        let i = fullest(s, o, o.max_levels as int)->0;
        assert(s.levels[i].1.len() > 0);
        lemma_oldest(s.levels[i].1);
    }
    assert(level_known(s, low));
    let level = s.levels[low].1;
    assert(upper_taken(now, t).levels[low].1 == level);
    assert forall|i: int| 0 <= i < t.lower.len() implies level.contains(#[trigger] t.lower[i]) by {
        lemma_overlapping(
            s.tables,
            level,
            begin_key(s.tables, t.upper),
            end_key(s.tables, t.upper),
            t.lower[i],
        );
    }
    let merged = lower_merged(now, t, output);
    let kept = ids::without(level, t.lower.to_set());
    assert forall|i: int| 0 <= i < merged.len() implies now.tables.dom().contains(
        #[trigger] merged[i],
    ) by {
        if i < kept.len() {
            lemma_without_subset(level, t.lower.to_set(), i);
            let j = choose|j: int| 0 <= j < level.len() && level[j] == kept[i];
            assert(s.tables.dom().contains(level[j]));
        } else {
            assert(merged[i] == output[i - kept.len()]);
        }
    }
}

/// The tables have keys, and each ends before the next one begins.
pub open spec fn is_run(tables: Map<usize, TableView>, list: Seq<usize>) -> bool {
    &&& forall|i: int| 0 <= i < list.len() ==> #[trigger] spans(tables, list[i])
    &&& forall|i: int, j: int|
        0 <= i < j < list.len() ==> ends_before(tables, #[trigger] list[i], #[trigger] list[j])
}

/// The first key of the table is not behind its last key.
pub open spec fn spans(tables: Map<usize, TableView>, id: usize) -> bool {
    key::key_le(tables[id].first_key, tables[id].last_key)
}

/// Table `a` ends before table `b` begins.
pub open spec fn ends_before(tables: Map<usize, TableView>, a: usize, b: usize) -> bool {
    key::key_lt(tables[a].last_key, tables[b].first_key)
}

/// The tables lie in the key range of other tables.
pub open spec fn within(
    tables: Map<usize, TableView>,
    list: Seq<usize>,
    others: Seq<usize>,
) -> bool {
    forall|i: int|
        0 <= i < list.len() ==> {
            &&& key::key_le(begin_key(tables, others), tables[#[trigger] list[i]].first_key)
            &&& key::key_le(tables[list[i]].last_key, end_key(tables, others))
        }
}

pub(crate) proof fn lemma_le_lt(a: Key, b: Key, c: Key)
    requires
        key::key_le(a, b) && key::key_lt(b, c) || key::key_lt(a, b) && key::key_le(b, c),
    ensures
        key::key_lt(a, c),
        a != c,
{
    if a != b && b != c {
        key::lemma_key_lt_transitive(a, b, c);
    }
    key::lemma_bytes_lt_irreflexive(a.key);
}

pub(crate) proof fn lemma_begin_key(tables: Map<usize, TableView>, list: Seq<usize>)
    requires
        list.len() > 0,
    ensures
        exists|i: int|
            0 <= i < list.len() && begin_key(tables, list) == tables[#[trigger] list[i]].first_key,
        exists|i: int|
            0 <= i < list.len() && end_key(tables, list) == tables[#[trigger] list[i]].last_key,
        forall|i: int|
            0 <= i < list.len() ==> key::key_le(
                begin_key(tables, list),
                tables[#[trigger] list[i]].first_key,
            ),
        forall|i: int|
            0 <= i < list.len() ==> key::key_le(
                tables[#[trigger] list[i]].last_key,
                end_key(tables, list),
            ),
    decreases list.len(),
{
    let last = list[list.len() - 1];
    let init = list.drop_last();
    if list.len() == 1 {
        assert(begin_key(tables, list) == tables[list[0]].first_key);
        assert(end_key(tables, list) == tables[list[0]].last_key);
    } else {
        lemma_begin_key(tables, init);
        let b = begin_key(tables, init);
        let e = end_key(tables, init);
        let i = choose|i: int| 0 <= i < init.len() && b == tables[#[trigger] init[i]].first_key;
        assert(b == tables[list[i]].first_key);
        let j = choose|j: int| 0 <= j < init.len() && e == tables[#[trigger] init[j]].last_key;
        assert(e == tables[list[j]].last_key);
        assert(tables[last].first_key == tables[list[list.len() - 1]].first_key);
        assert(tables[last].last_key == tables[list[list.len() - 1]].last_key);
        key::lemma_key_lt_total(tables[last].first_key, b);
        key::lemma_key_lt_total(tables[last].last_key, e);
        assert forall|h: int| 0 <= h < list.len() implies key::key_le(
            begin_key(tables, list),
            tables[#[trigger] list[h]].first_key,
        ) && key::key_le(tables[list[h]].last_key, end_key(tables, list)) by {
            if h < init.len() {
                assert(init[h] == list[h]);
                if key::key_lt(tables[last].first_key, b) {
                    lemma_le_lt(tables[last].first_key, b, tables[init[h]].first_key);
                }
                if key::key_lt(e, tables[last].last_key) {
                    lemma_le_lt(tables[init[h]].last_key, e, tables[last].last_key);
                }
            }
        }
    }
}

/// What is left of a run is a run.
pub(crate) proof fn lemma_without_run(tables: Map<usize, TableView>, list: Seq<usize>, set: Set<usize>)
    requires
        is_run(tables, list),
    ensures
        is_run(tables, ids::without(list, set)),
        forall|i: int|
            0 <= i < ids::without(list, set).len() ==> !set.contains(
                #[trigger] ids::without(list, set)[i],
            ),
    decreases list.len(),
{
    if list.len() > 0 {
        let rest = list.drop_first();
        let r = ids::without(list, set);
        assert(is_run(tables, rest)) by {
            assert forall|i: int| 0 <= i < rest.len() implies #[trigger] spans(
                tables,
                rest[i],
            ) by {
                assert(spans(tables, list[i + 1]));
            }
            assert forall|i: int, j: int| 0 <= i < j < rest.len() implies ends_before(
                tables,
                #[trigger] rest[i],
                #[trigger] rest[j],
            ) by {
                assert(ends_before(tables, list[i + 1], list[j + 1]));
            }
        }
        if set.contains(list[0]) {
            let small = set.remove(list[0]);
            lemma_without_run(tables, rest, small);
            assert forall|i: int| 0 <= i < r.len() implies !set.contains(#[trigger] r[i]) by {
                assert(!small.contains(r[i]));
                lemma_without_subset(rest, small, i);
                let j = choose|j: int| 0 <= j < rest.len() && rest[j] == r[i];
                assert(ends_before(tables, list[0], list[j + 1]));
                if r[i] == list[0] {
                    assert(spans(tables, list[0]));
                    lemma_le_lt(
                        tables[list[0]].first_key,
                        tables[list[0]].last_key,
                        tables[list[0]].first_key,
                    );
                }
            }
        } else {
            let more = ids::without(rest, set);
            lemma_without_run(tables, rest, set);
            assert(r == seq![list[0]] + more);
            assert forall|i: int| 0 <= i < r.len() implies #[trigger] spans(tables, r[i]) by {
                if i > 0 {
                    assert(spans(tables, more[i - 1]));
                } else {
                    assert(spans(tables, list[0]));
                }
            }
            assert forall|i: int| 0 <= i < r.len() implies !set.contains(#[trigger] r[i]) by {
                if i > 0 {
                    assert(r[i] == more[i - 1]);
                }
            }
            assert forall|i: int, j: int| 0 <= i < j < r.len() implies ends_before(
                tables,
                #[trigger] r[i],
                #[trigger] r[j],
            ) by {
                assert(r[j] == more[j - 1]);
                if i > 0 {
                    assert(r[i] == more[i - 1]);
                } else {
                    lemma_without_subset(rest, set, j - 1);
                    let h = choose|h: int| 0 <= h < rest.len() && rest[h] == more[j - 1];
                    assert(ends_before(tables, list[0], list[h + 1]));
                }
            }
        }
    }
}

/// A table that a task leaves in the lower level ends before the range of the tables of the task or
/// begins behind it.
proof fn lemma_kept_apart(
    tables: Map<usize, TableView>,
    level: Seq<usize>,
    upper: Seq<usize>,
    lower: Seq<usize>,
    id: usize,
)
    requires
        is_run(tables, level),
        upper.len() > 0,
        lower == overlapping(tables, level, begin_key(tables, upper), end_key(tables, upper)),
        level.contains(id),
        !lower.contains(id),
    ensures
        key::key_lt(tables[id].last_key, begin_key(tables, upper + lower)) || key::key_lt(
            end_key(tables, upper + lower),
            tables[id].first_key,
        ),
{
    let b = begin_key(tables, upper);
    let e = end_key(tables, upper);
    let all = upper + lower;
    let t = tables[id];
    let p = choose|p: int| 0 <= p < level.len() && level[p] == id;
    assert(spans(tables, level[p]));
    lemma_overlapping(tables, level, b, e, id);
    lemma_begin_key(tables, upper);
    lemma_begin_key(tables, all);
    assert forall|i: int| 0 <= i < lower.len() implies {
        &&& key::key_lt(t.last_key, b) ==> ends_before(tables, id, #[trigger] lower[i])
        &&& key::key_lt(e, t.first_key) ==> ends_before(tables, lower[i], id)
    } by {
        let l = lower[i];
        assert(lower.contains(l));
        lemma_overlapping(tables, level, b, e, l);
        let q = choose|q: int| 0 <= q < level.len() && level[q] == l;
        assert(p != q);
        if p < q {
            assert(ends_before(tables, level[p], level[q]));
            if key::key_lt(e, t.first_key) {
                lemma_le_lt(e, t.first_key, t.last_key);
                lemma_le_lt(e, t.last_key, tables[l].first_key);
            }
        } else {
            assert(ends_before(tables, level[q], level[p]));
            if key::key_lt(t.last_key, b) {
                lemma_le_lt(tables[l].last_key, t.first_key, t.last_key);
                lemma_le_lt(tables[l].last_key, t.last_key, b);
            }
        }
    }
    if key::key_lt(t.last_key, b) {
        let i = choose|i: int|
            0 <= i < all.len() && begin_key(tables, all) == tables[#[trigger] all[i]].first_key;
        if i < upper.len() {
            assert(all[i] == upper[i]);
            lemma_le_lt(t.last_key, b, tables[upper[i]].first_key);
        } else {
            assert(all[i] == lower[i - upper.len()]);
        }
    } else {
        let i = choose|i: int|
            0 <= i < all.len() && end_key(tables, all) == tables[#[trigger] all[i]].last_key;
        if i < upper.len() {
            assert(all[i] == upper[i]);
            lemma_le_lt(tables[upper[i]].last_key, e, t.first_key);
        } else {
            assert(all[i] == lower[i - upper.len()]);
        }
    }
}

/// Any two of the tables at different positions lie apart.
pub open spec fn apart(tables: Map<usize, TableView>, list: Seq<usize>) -> bool {
    &&& forall|i: int| 0 <= i < list.len() ==> #[trigger] spans(tables, list[i])
    &&& forall|i: int, j: int|
        0 <= i < list.len() && 0 <= j < list.len() && i != j ==> ends_before(
            tables,
            #[trigger] list[i],
            #[trigger] list[j],
        ) || ends_before(tables, list[j], list[i])
}

/// Tables that stand in key order do not overlap.
pub proof fn lemma_run_apart(tables: Map<usize, TableView>, list: Seq<usize>)
    requires
        is_run(tables, list),
    ensures
        apart(tables, list),
{
    assert forall|i: int, j: int|
        0 <= i < list.len() && 0 <= j < list.len() && i != j implies ends_before(
        tables,
        #[trigger] list[i],
        #[trigger] list[j],
    ) || ends_before(tables, list[j], list[i]) by {
        if i < j {
            assert(ends_before(tables, list[i], list[j]));
        } else {
            assert(ends_before(tables, list[j], list[i]));
        }
    }
}

proof fn lemma_apart_sorted(tables: Map<usize, TableView>, list: Seq<usize>)
    requires
        apart(tables, list),
    ensures
        is_run(tables, ids::sorted_by_first_key(tables, list)),
{
    broadcast use vstd::seq_lib::group_to_multiset_ensures;

    let r = ids::sorted_by_first_key(tables, list);
    ids::lemma_sorted_by_first_key(tables, list);
    assert forall|i: int, j: int|
        0 <= i < list.len() && 0 <= j < list.len() && i != j implies list[i] != list[j] by {
        assert(spans(tables, list[i]));
        assert(ends_before(tables, list[i], list[j]) || ends_before(tables, list[j], list[i]));
        if list[i] == list[j] {
            lemma_le_lt(
                tables[list[i]].first_key,
                tables[list[i]].last_key,
                tables[list[i]].first_key,
            );
        }
    }
    assert(list.no_duplicates());
    list.lemma_multiset_has_no_duplicates();
    r.lemma_multiset_has_no_duplicates_conv();
    assert forall|i: int| 0 <= i < r.len() implies #[trigger] spans(tables, r[i]) by {
        assert(list.contains(r[i]));
        let p = choose|p: int| 0 <= p < list.len() && list[p] == r[i];
        assert(spans(tables, list[p]));
    }
    assert forall|i: int, j: int| 0 <= i < j < r.len() implies ends_before(
        tables,
        #[trigger] r[i],
        #[trigger] r[j],
    ) by {
        assert(list.contains(r[i]) && list.contains(r[j]));
        let p = choose|p: int| 0 <= p < list.len() && list[p] == r[i];
        let q = choose|q: int| 0 <= q < list.len() && list[q] == r[j];
        assert(p != q);
        assert(ends_before(tables, list[p], list[q]) || ends_before(tables, list[q], list[p]));
        if ends_before(tables, r[j], r[i]) {
            assert(spans(tables, r[j]));
            lemma_le_lt(tables[r[j]].first_key, tables[r[j]].last_key, tables[r[i]].first_key);
            assert(!key::key_lt(ids::first_key_of(tables, r[j]), ids::first_key_of(tables, r[i])));
        }
    }
}

/// The tables of the lower level do not overlap and stand in key order after a task, where they did
/// so before, the task takes the tables that overlap the upper ones, and the tables of the output do
/// not overlap and lie in the key range of the tables of the task.
pub proof fn lemma_lower_stays_run(s: StateView, t: LevelTaskView, output: Seq<usize>)
    requires
        t.upper_level matches Some(u) ==> 1 <= u <= s.levels.len(),
        1 <= t.lower_level <= s.levels.len(),
        t.upper.len() > 0,
        ({
            let level = upper_taken(s, t).levels[t.lower_level - 1].1;
            &&& is_run(s.tables, level)
            &&& t.lower == overlapping(
                s.tables,
                level,
                begin_key(s.tables, t.upper),
                end_key(s.tables, t.upper),
            )
        }),
        apart(s.tables, output),
        within(s.tables, output, t.upper + t.lower),
    ensures
        is_run(s.tables, leveled_applied(s, t, output, false).levels[t.lower_level - 1].1),
{
    let tables = s.tables;
    let level = upper_taken(s, t).levels[t.lower_level - 1].1;
    let kept = ids::without(level, t.lower.to_set());
    let merged = kept + output;
    let all = t.upper + t.lower;
    lemma_without_run(tables, level, t.lower.to_set());
    assert forall|i: int| 0 <= i < merged.len() implies #[trigger] spans(tables, merged[i]) by {
        if i < kept.len() {
            assert(spans(tables, kept[i]));
        } else {
            assert(spans(tables, output[i - kept.len()]));
        }
    }
    assert forall|i: int, j: int|
        0 <= i < kept.len() && 0 <= j < output.len() implies ends_before(
        tables,
        #[trigger] kept[i],
        #[trigger] output[j],
    ) || ends_before(tables, output[j], kept[i]) by {
        lemma_without_subset(level, t.lower.to_set(), i);
        assert(!t.lower.to_set().contains(kept[i]));
        lemma_kept_apart(tables, level, t.upper, t.lower, kept[i]);
        assert(key::key_le(begin_key(tables, all), tables[output[j]].first_key));
        if key::key_lt(tables[kept[i]].last_key, begin_key(tables, all)) {
            lemma_le_lt(
                tables[kept[i]].last_key,
                begin_key(tables, all),
                tables[output[j]].first_key,
            );
        } else {
            lemma_le_lt(
                tables[output[j]].last_key,
                end_key(tables, all),
                tables[kept[i]].first_key,
            );
        }
    }
    assert forall|i: int, j: int|
        0 <= i < merged.len() && 0 <= j < merged.len() && i != j implies ends_before(
        tables,
        #[trigger] merged[i],
        #[trigger] merged[j],
    ) || ends_before(tables, merged[j], merged[i]) by {
        let n = kept.len() as int;
        if i < n && j < n {
            assert(merged[i] == kept[i] && merged[j] == kept[j]);
        } else if i >= n && j >= n {
            assert(merged[i] == output[i - n] && merged[j] == output[j - n]);
            assert(i - n != j - n);
        } else if i < n {
            assert(merged[i] == kept[i] && merged[j] == output[j - n]);
        } else {
            assert(merged[i] == output[i - n] && merged[j] == kept[j]);
        }
    }
    lemma_apart_sorted(tables, merged);
}

/// The bytes of the tables in a list, counted together.
pub open spec fn bytes_in(tables: Map<usize, TableView>, list: Seq<usize>) -> int {
    list.fold_left(0int, |sum: int, id: usize| sum + tables[id].size)
}

/// The size of a level is that of all its tables together.
pub proof fn lemma_size_of(tables: Map<usize, TableView>, list: Seq<usize>)
    ensures
        size_of(tables, list) == bytes_in(tables, list),
    decreases list.len(),
{
    if list.len() > 0 {
        lemma_size_of(tables, list.drop_last());
    }
}

/// The sizes that levels aim at: the last level at its own size, but at no less than the base size;
/// each level above it at the whole part of what the next level aims at divided by the multiplier, as
/// long as that next level aims at more than the base size, and at nothing otherwise.
pub open spec fn aims(s: StateView, o: LeveledCompactionOptions, targets: Seq<int>) -> bool {
    let base = o.base_level_size_mb * 1048576;
    let last = bytes_in(s.tables, s.levels[o.max_levels - 1].1);
    &&& targets.len() == o.max_levels
    &&& last > base ==> targets.last() == last
    &&& last <= base ==> targets.last() == base
    &&& forall|i: int|
        1 <= i < o.max_levels && (#[trigger] targets[i]) > base ==> targets[i - 1]
            * o.level_size_multiplier <= targets[i] < (targets[i - 1] + 1) * o.level_size_multiplier
    &&& forall|i: int|
        1 <= i < o.max_levels && (#[trigger] targets[i]) <= base ==> targets[i - 1] == 0
}

/// Where the last level is no larger than the base size, no level aims at more than that.
proof fn lemma_small_targets(s: StateView, o: LeveledCompactionOptions, i: int)
    requires
        0 <= i < o.max_levels,
        real_size(s, o.max_levels - 1) <= base_size(o),
    ensures
        target_size(s, o, i) <= base_size(o),
    decreases o.max_levels - i,
{
    if i < o.max_levels - 1 {
        lemma_small_targets(s, o, i + 1);
    }
}

/// The sizes that the levels of a state aim at, each against the next.
pub proof fn lemma_target_sizes(s: StateView, o: LeveledCompactionOptions)
    requires
        o.max_levels >= 1,
        o.level_size_multiplier > 0 || o.max_levels == 1 || bytes_in(
            s.tables,
            s.levels[o.max_levels - 1].1,
        ) <= o.base_level_size_mb * 1048576,
    ensures
        aims(s, o, Seq::new(o.max_levels as nat, |i: int| target_size(s, o, i) as int)),
{
    let targets = Seq::new(o.max_levels as nat, |i: int| target_size(s, o, i) as int);
    lemma_size_of(s.tables, s.levels[o.max_levels - 1].1);
    assert forall|i: int|
        1 <= i < o.max_levels && (#[trigger] targets[i]) > base_size(o) implies targets[i - 1]
        * o.level_size_multiplier <= targets[i] < (targets[i - 1] + 1) * o.level_size_multiplier by {
        let t = targets[i];
        let m = o.level_size_multiplier as int;
        if m == 0 {
            lemma_small_targets(s, o, i);
        }
        assert(targets[i - 1] == t / m);
        assert((t / m) * m <= t < (t / m + 1) * m) by (nonlinear_arith)
            requires
                m > 0,
        ;
    }
}

/// There are no other sizes that fit together in this way.
pub proof fn lemma_target_size(s: StateView, o: LeveledCompactionOptions, targets: Seq<int>, i: int)
    requires
        aims(s, o, targets),
        0 <= i < o.max_levels,
    ensures
        target_size(s, o, i) == targets[i],
    decreases o.max_levels - i,
{
    lemma_size_of(s.tables, s.levels[o.max_levels - 1].1);
    if i < o.max_levels - 1 {
        lemma_target_size(s, o, targets, i + 1);
        let t = targets[i + 1];
        if t > base_size(o) {
            let m = o.level_size_multiplier as int;
            let q = targets[i];
            assert(t / m == q) by (nonlinear_arith)
                requires
                    m >= 0,
                    t > 0,
                    q * m <= t < (q + 1) * m,
            ;
        }
    }
}

/// Level `i`, counted from 0, is above the last one and larger than the size that it aims at.
spec fn too_large(s: StateView, o: LeveledCompactionOptions, targets: Seq<int>, i: int) -> bool {
    targets[i] > 0 && bytes_in(s.tables, s.levels[i].1) > targets[i]
}

proof fn lemma_too_large(s: StateView, o: LeveledCompactionOptions, targets: Seq<int>, i: int)
    requires
        aims(s, o, targets),
        0 <= i < o.max_levels,
    ensures
        too_large(s, o, targets, i) <==> overfull(s, o, i),
        real_size(s, i) == bytes_in(s.tables, s.levels[i].1),
        target_size(s, o, i) == targets[i],
{
    lemma_size_of(s.tables, s.levels[i].1);
    lemma_target_size(s, o, targets, i);
}

/// Level `b` is among the first `n` the one that is the fullest for what it aims at, and of equally
/// full ones the lowest.
spec fn beats(s: StateView, targets: Seq<int>, b: int, i: int) -> bool {
    let of_b = bytes_in(s.tables, s.levels[b].1) * targets[i];
    let of_i = bytes_in(s.tables, s.levels[i].1) * targets[b];
    of_i < of_b || (of_i == of_b && i <= b)
}

proof fn lemma_beats_chain(s: StateView, targets: Seq<int>, c: int, b: int, i: int)
    requires
        beats(s, targets, c, b),
        beats(s, targets, b, i),
        targets[b] > 0,
        targets[c] > 0,
        targets[i] > 0,
        b < c,
    ensures
        beats(s, targets, c, i),
{
    let x = bytes_in(s.tables, s.levels[c].1);
    let y = bytes_in(s.tables, s.levels[b].1);
    let z = bytes_in(s.tables, s.levels[i].1);
    let tc = targets[c];
    let tb = targets[b];
    let ti = targets[i];
    assert(z * tc <= x * ti) by (nonlinear_arith)
        requires
            y * tc <= x * tb,
            z * tb <= y * ti,
            tb > 0,
            tc > 0,
            ti > 0,
    {
        assert((y * tc) * ti <= (x * tb) * ti);
        assert((z * tb) * tc <= (y * ti) * tc);
        assert((y * tc) * ti == (y * ti) * tc);
        assert((z * tc) * tb <= (x * ti) * tb);
    }
    if z * tc == x * ti && i > c {
        assert(z * tb < y * ti);
        assert(z * tc < x * ti) by (nonlinear_arith)
            requires
                y * tc <= x * tb,
                z * tb < y * ti,
                tb > 0,
                tc > 0,
                ti > 0,
        {
            assert((y * tc) * ti <= (x * tb) * ti);
            assert((z * tb) * tc < (y * ti) * tc);
            assert((y * tc) * ti == (y * ti) * tc);
            assert((z * tc) * tb < (x * ti) * tb);
        }
    }
}

proof fn lemma_fullest_exactly(s: StateView, o: LeveledCompactionOptions, targets: Seq<int>, n: int)
    requires
        aims(s, o, targets),
        0 <= n <= o.max_levels,
    ensures
        match fullest(s, o, n) {
            None => forall|i: int| 0 <= i < n ==> !#[trigger] too_large(s, o, targets, i),
            Some(b) => {
                &&& 0 <= b < n
                &&& too_large(s, o, targets, b)
                &&& forall|i: int|
                    0 <= i < n && #[trigger] too_large(s, o, targets, i) ==> beats(s, targets, b, i)
            },
        },
    decreases n,
{
    if n > 0 {
        let i = n - 1;
        lemma_fullest_exactly(s, o, targets, i);
        lemma_too_large(s, o, targets, i);
        match fullest(s, o, i) {
            None => {},
            Some(b) => {
                lemma_too_large(s, o, targets, b);
                if too_large(s, o, targets, i) && beats(s, targets, i, b) {
                    assert forall|j: int|
                        0 <= j < n && #[trigger] too_large(s, o, targets, j) implies beats(
                        s,
                        targets,
                        i,
                        j,
                    ) by {
                        if j < i {
                            lemma_beats_chain(s, targets, i, b, j);
                        }
                    }
                }
            },
        }
    }
}

/// A task is due exactly if L0 has as many tables as its trigger, or a level above the last is
/// larger than the size that it aims at, which has to be more than nothing.
pub proof fn lemma_leveled_due(s: StateView, o: LeveledCompactionOptions, targets: Seq<int>)
    requires
        o.max_levels >= 1,
        aims(s, o, targets),
    ensures
        leveled_task(s, o) is Some <==> s.l0.len() >= o.level0_file_num_compaction_trigger || exists|
            i: int,
        |
            0 <= i < o.max_levels - 1 && (#[trigger] targets[i]) > 0 && bytes_in(
                s.tables,
                s.levels[i].1,
            ) > targets[i],
{
    lemma_fullest_exactly(s, o, targets, o.max_levels as int);
    if leveled_task(s, o) is Some && s.l0.len() < o.level0_file_num_compaction_trigger {
        let b = fullest(s, o, o.max_levels as int)->0;
        assert(too_large(s, o, targets, b));
        lemma_fullest(s, o, o.max_levels as int);
        assert(targets[b] > 0);
    }
    if exists|i: int|
        0 <= i < o.max_levels - 1 && (#[trigger] targets[i]) > 0 && bytes_in(
            s.tables,
            s.levels[i].1,
        ) > targets[i] {
        let i = choose|i: int|
            0 <= i < o.max_levels - 1 && (#[trigger] targets[i]) > 0 && bytes_in(
                s.tables,
                s.levels[i].1,
            ) > targets[i];
        assert(too_large(s, o, targets, i));
    }
}

/// Below the trigger of L0, the task takes from the level that is the largest for what it aims at
/// the table with the least number, into the next level. No other level that is too large is larger
/// for what it aims at, and none below it as large.
pub proof fn lemma_leveled_fullest(s: StateView, o: LeveledCompactionOptions, targets: Seq<int>)
    requires
        o.max_levels >= 1,
        aims(s, o, targets),
        s.l0.len() < o.level0_file_num_compaction_trigger,
        leveled_task(s, o) is Some,
    ensures
        ({
            let t = leveled_task(s, o)->0;
            let u = t.upper_level->0 - 1;
            let size = bytes_in(s.tables, s.levels[u].1);
            &&& t.upper_level is Some
            &&& 0 <= u < o.max_levels - 1
            &&& targets[u] > 0
            &&& size > targets[u]
            &&& forall|i: int|
                0 <= i < o.max_levels && (#[trigger] targets[i]) > 0 && bytes_in(
                    s.tables,
                    s.levels[i].1,
                ) > targets[i] ==> bytes_in(s.tables, s.levels[i].1) * targets[u] <= size
                    * targets[i]
            &&& forall|i: int|
                u < i < o.max_levels && (#[trigger] targets[i]) > 0 && bytes_in(
                    s.tables,
                    s.levels[i].1,
                ) > targets[i] ==> bytes_in(s.tables, s.levels[i].1) * targets[u] < size
                    * targets[i]
            &&& t.upper.len() == 1
            &&& s.levels[u].1.contains(t.upper[0])
            &&& forall|j: int|
                0 <= j < s.levels[u].1.len() ==> t.upper[0] <= #[trigger] s.levels[u].1[j]
            &&& t.lower_level == u + 2
            &&& t.to_bottom == (u + 2 == o.max_levels)
        }),
{
    lemma_fullest_exactly(s, o, targets, o.max_levels as int);
    lemma_fullest(s, o, o.max_levels as int);
    let u = fullest(s, o, o.max_levels as int)->0;
    lemma_too_large(s, o, targets, u);
    assert(too_large(s, o, targets, u));
    assert forall|i: int|
        0 <= i < o.max_levels && (#[trigger] targets[i]) > 0 && bytes_in(s.tables, s.levels[i].1)
            > targets[i] implies beats(s, targets, u, i) by {
        assert(too_large(s, o, targets, i));
    }
    if s.levels[u].1.len() == 0 {
        assert(bytes_in(s.tables, s.levels[u].1) == 0);
    }
    lemma_oldest(s.levels[u].1);
}

proof fn lemma_base_exactly(s: StateView, o: LeveledCompactionOptions, targets: Seq<int>, i: int)
    requires
        o.max_levels >= 1,
        aims(s, o, targets),
        0 <= i < o.max_levels,
    ensures
        ({
            let b = base_level(s, o, i);
            &&& i < b <= o.max_levels
            &&& forall|j: int| i <= j < b - 1 ==> #[trigger] targets[j] == 0
            &&& b < o.max_levels ==> targets[b - 1] > 0
        }),
    decreases o.max_levels - i,
{
    lemma_target_size(s, o, targets, i);
    if i < o.max_levels - 1 && targets[i] == 0 {
        lemma_base_exactly(s, o, targets, i + 1);
    }
}

/// As soon as L0 has as many tables as its trigger, all of it is compacted into the first level that
/// aims at more than nothing, or into the last one where no level above it does.
pub proof fn lemma_leveled_l0(s: StateView, o: LeveledCompactionOptions, targets: Seq<int>)
    requires
        o.max_levels >= 1,
        aims(s, o, targets),
        s.l0.len() >= o.level0_file_num_compaction_trigger,
    ensures
        leveled_task(s, o) matches Some(t) && {
            &&& t.upper_level is None
            &&& t.upper == s.l0
            &&& 1 <= t.lower_level <= o.max_levels
            &&& forall|j: int| 0 <= j < t.lower_level - 1 ==> #[trigger] targets[j] == 0
            &&& t.lower_level < o.max_levels ==> targets[t.lower_level - 1] > 0
            &&& t.to_bottom == (t.lower_level == o.max_levels)
        },
{
    lemma_base_exactly(s, o, targets, 0);
}

/// The keys of a table reach into those of a list of tables: it does not end before all of them
/// begin, and it does not begin behind the end of all of them.
spec fn reaches_into(tables: Map<usize, TableView>, id: usize, list: Seq<usize>) -> bool {
    &&& exists|i: int|
        0 <= i < list.len() && !key::key_lt(
            tables[id].last_key,
            tables[#[trigger] list[i]].first_key,
        )
    &&& exists|i: int|
        0 <= i < list.len() && !key::key_lt(
            tables[#[trigger] list[i]].last_key,
            tables[id].first_key,
        )
}

proof fn lemma_reaches_into(tables: Map<usize, TableView>, id: usize, list: Seq<usize>)
    requires
        list.len() > 0,
    ensures
        reaches_into(tables, id, list) <==> overlaps(
            tables[id],
            begin_key(tables, list),
            end_key(tables, list),
        ),
{
    let b = begin_key(tables, list);
    let e = end_key(tables, list);
    let t = tables[id];
    lemma_begin_key(tables, list);
    if key::key_lt(t.last_key, b) {
        assert forall|i: int| 0 <= i < list.len() implies key::key_lt(
            t.last_key,
            tables[#[trigger] list[i]].first_key,
        ) by {
            lemma_le_lt(t.last_key, b, tables[list[i]].first_key);
        }
    }
    if key::key_lt(e, t.first_key) {
        assert forall|i: int| 0 <= i < list.len() implies key::key_lt(
            tables[#[trigger] list[i]].last_key,
            t.first_key,
        ) by {
            lemma_le_lt(tables[list[i]].last_key, e, t.first_key);
        }
    }
}

proof fn lemma_overlapping_filter(
    tables: Map<usize, TableView>,
    level: Seq<usize>,
    begin: Key,
    end: Key,
)
    ensures
        overlapping(tables, level, begin, end) == level.filter(
            |id: usize| overlaps(tables[id], begin, end),
        ),
    decreases level.len(),
{
    reveal(Seq::filter);
    if level.len() > 0 {
        lemma_overlapping_filter(tables, level.drop_last(), begin, end);
    }
}

/// A task takes from its lower level, in their order, exactly the tables whose keys reach into those
/// of its upper tables: such a table does not end before the first of them begins, and does not
/// begin behind where the last of them ends.
pub proof fn lemma_leveled_lower(s: StateView, o: LeveledCompactionOptions)
    requires
        o.max_levels >= 1,
        leveled_task(s, o) is Some,
        s.l0.len() >= o.level0_file_num_compaction_trigger ==> s.l0.len() > 0,
    ensures
        ({
            let t = leveled_task(s, o)->0;
            t.lower == s.levels[t.lower_level - 1].1.filter(
                |id: usize|
                    {
                        &&& exists|i: int|
                            0 <= i < t.upper.len() && !key::key_lt(
                                s.tables[id].last_key,
                                s.tables[#[trigger] t.upper[i]].first_key,
                            )
                        &&& exists|i: int|
                            0 <= i < t.upper.len() && !key::key_lt(
                                s.tables[#[trigger] t.upper[i]].last_key,
                                s.tables[id].first_key,
                            )
                    },
            )
        }),
{
    let t = leveled_task(s, o)->0;
    let level = s.levels[t.lower_level - 1].1;
    let begin = begin_key(s.tables, t.upper);
    let end = end_key(s.tables, t.upper);
    lemma_base_level(s, o, 0);
    lemma_fullest(s, o, o.max_levels as int);
    lemma_overlapping_filter(s.tables, level, begin, end);
    let raw = |id: usize|
        {
            &&& exists|i: int|
                0 <= i < t.upper.len() && !key::key_lt(
                    s.tables[id].last_key,
                    s.tables[#[trigger] t.upper[i]].first_key,
                )
            &&& exists|i: int|
                0 <= i < t.upper.len() && !key::key_lt(
                    s.tables[#[trigger] t.upper[i]].last_key,
                    s.tables[id].first_key,
                )
        };
    assert forall|id: usize| #[trigger] raw(id) == overlaps(s.tables[id], begin, end) by {
        lemma_reaches_into(s.tables, id, t.upper);
    }
    assert(raw =~= (|id: usize| overlaps(s.tables[id], begin, end)));
}

/// A finished task takes its upper tables out of their level, or out of L0, and puts its output in
/// the place of its lower tables; the lower level is then sorted by the first keys, unless it is
/// being recovered. The tables that are not in the task stay in their order, and so does every other
/// level.
pub proof fn lemma_leveled_applied(
    s: StateView,
    t: LevelTaskView,
    output: Seq<usize>,
    in_recovery: bool,
    i: int,
)
    requires
        1 <= t.lower_level <= s.levels.len(),
        t.upper_level matches Some(u) ==> 1 <= u <= s.levels.len() && u != t.lower_level,
        s.l0.no_duplicates(),
        forall|j: int| 0 <= j < s.levels.len() ==> (#[trigger] s.levels[j]).1.no_duplicates(),
        0 <= i < s.levels.len(),
    ensures
        ({
            let r = leveled_applied(s, t, output, in_recovery);
            let merged = s.levels[t.lower_level - 1].1.filter(|id: usize| !t.lower.contains(id))
                + output;
            let now = r.levels[t.lower_level - 1].1;
            &&& r.tables == s.tables
            &&& r.levels.len() == s.levels.len()
            &&& r.levels[i].0 == s.levels[i].0
            &&& in_recovery ==> now == merged
            &&& now.to_multiset() == merged.to_multiset()
            &&& !in_recovery ==> forall|a: int, b: int|
                0 <= a < b < now.len() ==> !key::key_lt(
                    s.tables[#[trigger] now[b]].first_key,
                    s.tables[#[trigger] now[a]].first_key,
                )
            &&& t.upper_level matches Some(u) ==> {
                &&& i == u - 1 ==> r.levels[i].1 == s.levels[i].1.filter(
                    |id: usize| !t.upper.contains(id),
                )
                &&& i != u - 1 && i != t.lower_level - 1 ==> r.levels[i].1 == s.levels[i].1
                &&& r.l0 == s.l0
            }
            &&& t.upper_level is None ==> {
                &&& i != t.lower_level - 1 ==> r.levels[i].1 == s.levels[i].1
                &&& r.l0 == s.l0.filter(|id: usize| !t.upper.contains(id))
            }
        }),
{
    let merged = lower_merged(s, t, output);
    ids::lemma_sorted_by_first_key(s.tables, merged);
    ids::lemma_without(s.l0, t.upper.to_set());
    ids::lemma_without(s.levels[t.lower_level - 1].1, t.lower.to_set());
    assert((|id: usize| !t.upper.to_set().contains(id)) =~= (|id: usize| !t.upper.contains(id)));
    assert((|id: usize| !t.lower.to_set().contains(id)) =~= (|id: usize| !t.lower.contains(id)));
    if t.upper_level is Some {
        ids::lemma_without(s.levels[t.upper_level->0 - 1].1, t.upper.to_set());
    }
}

/// Compacts single tables.
pub struct LeveledCompactionController {
    pub(crate) options: LeveledCompactionOptions,
}

impl LeveledCompactionController {
    /// The options.
    pub closed spec fn opts(&self) -> LeveledCompactionOptions {
        self.options
    }

    /// A controller with the given options.
    pub fn new(options: LeveledCompactionOptions) -> (r: Self)
        ensures
            r.opts() == options,
    {
        LeveledCompactionController { options }
    }

    /// The options.
    pub fn options(&self) -> (r: LeveledCompactionOptions)
        ensures
            r == self.opts(),
    {
        self.options
    }

    /// Whether a task can be chosen.
    pub fn can_choose(&self, snapshot: &LsmStorageState) -> (r: bool)
        ensures
            r == plannable(snapshot@, self.opts()),
    {
        let ghost s = snapshot@;
        let ghost o = self.options;
        let n: usize = self.options.max_levels;
        if n < 1 || snapshot.levels.len() < n {
            return false;
        }
        let mut last: usize = 0;
        let mut i: usize = 0;
        while i < n
            invariant
                i <= n,
                n == o.max_levels,
                o == self.options,
                s == snapshot@,
                1 <= n <= s.levels.len(),
                forall|j: int| 0 <= j < i ==> #[trigger] level_known(s, j),
                i > 0 ==> last == real_size(s, i - 1),
            decreases n - i,
        {
            assert(s.levels[i as int].1 == snapshot.levels@[i as int].1@);
            match known_size(snapshot, &snapshot.levels[i].1) {
                Some(size) => {
                    last = size;
                    assert(level_known(s, i as int));
                },
                None => {
                    assert(!level_known(s, i as int));
                    return false;
                },
            }
            i += 1;
        }
        let base: u128 = self.options.base_level_size_mb as u128 * 1024 * 1024;
        if base > usize::MAX as u128 {
            return false;
        }
        if self.options.level_size_multiplier == 0 && n != 1 && last as u128 > base {
            return false;
        }
        if snapshot.l0_sstables.len() >= self.options.level0_file_num_compaction_trigger {
            return snapshot.l0_sstables.len() > 0 && known_ids(snapshot, &snapshot.l0_sstables);
        }
        true
    }

    /// Finds the tables of a level that overlap the key range of some tables.
    fn find_overlapping_ssts(
        &self,
        snapshot: &LsmStorageState,
        sst_ids: &Vec<usize>,
        in_level: usize,
    ) -> (r: Vec<usize>)
        requires
            sst_ids@.len() > 0,
            snapshot@.knows(sst_ids@),
            1 <= in_level <= snapshot@.levels.len(),
            snapshot@.knows(snapshot@.levels[in_level - 1].1),
        ensures
            r@ == overlapping_ssts(snapshot@, sst_ids@, in_level as int),
    {
        let ghost s = snapshot@;
        let mut begin: &KeyBytes = first_key_in(snapshot, sst_ids[0]);
        let mut end: &KeyBytes = last_key_in(snapshot, sst_ids[0]);
        let mut i: usize = 1;
        assert(sst_ids@.take(1).last() == sst_ids@[0]);
        while i < sst_ids.len()
            invariant
                1 <= i <= sst_ids@.len(),
                s == snapshot@,
                s.knows(sst_ids@),
                begin@ == begin_key(s.tables, sst_ids@.take(i as int)),
                end@ == end_key(s.tables, sst_ids@.take(i as int)),
            decreases sst_ids@.len() - i,
        {
            assert(sst_ids@.take(i + 1).drop_last() =~= sst_ids@.take(i as int));
            let first: &KeyBytes = first_key_in(snapshot, sst_ids[i]);
            if first.as_key_slice().precedes(begin.as_key_slice()) {
                begin = first;
            }
            let last: &KeyBytes = last_key_in(snapshot, sst_ids[i]);
            if end.as_key_slice().precedes(last.as_key_slice()) {
                end = last;
            }
            i += 1;
        }
        assert(sst_ids@.take(i as int) =~= sst_ids@);
        let level: &Vec<usize> = &snapshot.levels[in_level - 1].1;
        assert(level@ == s.levels[in_level - 1].1);
        let mut overlap: Vec<usize> = Vec::new();
        i = 0;
        assert(level@.take(0) =~= Seq::empty());
        while i < level.len()
            invariant
                i <= level@.len(),
                s == snapshot@,
                s.knows(level@),
                overlap@ == overlapping(s.tables, level@.take(i as int), begin@, end@),
            decreases level@.len() - i,
        {
            assert(level@.take(i + 1).drop_last() =~= level@.take(i as int));
            let first: &KeyBytes = first_key_in(snapshot, level[i]);
            let last: &KeyBytes = last_key_in(snapshot, level[i]);
            if !(last.as_key_slice().precedes(begin.as_key_slice()) || end.as_key_slice().precedes(
                first.as_key_slice(),
            )) {
                overlap.push(level[i]);
            }
            i += 1;
        }
        assert(level@.take(i as int) =~= level@);
        overlap
    }

    /// The sizes that the levels aim at.
    fn target_sizes(&self, snapshot: &LsmStorageState, real_sizes: &Vec<usize>) -> (r: Vec<usize>)
        requires
            plannable(snapshot@, self.opts()),
            real_sizes@.len() == self.opts().max_levels,
            forall|i: int|
                0 <= i < real_sizes@.len() ==> #[trigger] real_sizes@[i] == real_size(snapshot@, i),
        ensures
            r@.len() == self.opts().max_levels,
            forall|i: int|
                0 <= i < r@.len() ==> #[trigger] r@[i] == target_size(snapshot@, self.opts(), i),
    {
        let ghost s = snapshot@;
        let ghost o = self.options;
        let n: usize = self.options.max_levels;
        assert(o.base_level_size_mb * 1024 <= usize::MAX);
        let base: usize = self.options.base_level_size_mb * 1024 * 1024;
        let mut sizes: Vec<usize> = Vec::new();
        let mut i: usize = 0;
        while i < n
            invariant
                i <= n,
                sizes@.len() == i,
                forall|j: int| 0 <= j < i ==> #[trigger] sizes@[j] == 0,
            decreases n - i,
        {
            sizes.push(0);
            i += 1;
        }
        let last: usize = real_sizes[n - 1];
        sizes.set(
            n - 1,
            if last > base {
                last
            } else {
                base
            },
        );
        i = n - 1;
        while i > 0
            invariant
                i < n,
                n == o.max_levels,
                o == self.options,
                s == snapshot@,
                plannable(s, o),
                base == base_size(o),
                sizes@.len() == n,
                forall|j: int| i <= j < n ==> #[trigger] sizes@[j] == target_size(s, o, j),
                forall|j: int| 0 <= j < i ==> #[trigger] sizes@[j] == 0,
            decreases i,
        {
            proof {
                lemma_target_bounded(s, o, i - 1);
            }
            let next: usize = sizes[i];
            assert(next == target_size(s, o, i as int));
            if next > base {
                let size: usize = next / self.options.level_size_multiplier;
                sizes.set(i - 1, size);
            }
            i -= 1;
        }
        sizes
    }

    /// The task for a state, if there is anything to compact.
    pub fn generate_compaction_task(&self, snapshot: &LsmStorageState) -> (r: Option<
        LeveledCompactionTask,
    >)
        requires
            plannable(snapshot@, self.opts()),
        ensures
            match r {
                Some(t) => leveled_task(snapshot@, self.opts()) == Some(t@),
                None => leveled_task(snapshot@, self.opts()) is None,
            },
    {
        let ghost s = snapshot@;
        let ghost o = self.options;
        let n: usize = self.options.max_levels;
        let mut real_sizes: Vec<usize> = Vec::new();
        let mut i: usize = 0;
        while i < n
            invariant
                i <= n,
                n == o.max_levels,
                s == snapshot@,
                plannable(s, o),
                real_sizes@.len() == i,
                forall|j: int| 0 <= j < i ==> #[trigger] real_sizes@[j] == real_size(s, j),
            decreases n - i,
        {
            assert(level_known(s, i as int));
            assert(s.levels[i as int].1 == snapshot.levels@[i as int].1@);
            real_sizes.push(sum_sizes(snapshot, &snapshot.levels[i].1));
            i += 1;
        }
        let target_sizes: Vec<usize> = self.target_sizes(snapshot, &real_sizes);
        if snapshot.l0_sstables.len() >= self.options.level0_file_num_compaction_trigger {
            let mut base: usize = n;
            i = n - 1;
            while i > 0
                invariant
                    i < n,
                    n == o.max_levels,
                    target_sizes@.len() == n,
                    forall|j: int|
                        0 <= j < n ==> #[trigger] target_sizes@[j] == target_size(s, o, j),
                    base == base_level(s, o, i as int),
                decreases i,
            {
                i -= 1;
                if target_sizes[i] > 0 {
                    base = i + 1;
                }
            }
            proof {
                lemma_base_level(s, o, 0);
                assert(level_known(s, base - 1));
            }
            return Some(
                LeveledCompactionTask {
                    upper_level: None,
                    upper_level_sst_ids: ids::copy_ids(&snapshot.l0_sstables),
                    lower_level: base,
                    lower_level_sst_ids: self.find_overlapping_ssts(
                        snapshot,
                        &snapshot.l0_sstables,
                        base,
                    ),
                    is_lower_level_bottom_level: base == n,
                },
            );
        }
        let mut best: Option<usize> = None;
        i = 0;
        while i < n
            invariant
                i <= n,
                n == o.max_levels,
                real_sizes@.len() == n,
                target_sizes@.len() == n,
                forall|j: int| 0 <= j < n ==> #[trigger] real_sizes@[j] == real_size(s, j),
                forall|j: int| 0 <= j < n ==> #[trigger] target_sizes@[j] == target_size(s, o, j),
                match best {
                    Some(b) => b < i && fullest(s, o, i as int) == Some(b as int),
                    None => fullest(s, o, i as int) is None,
                },
            decreases n - i,
        {
            assert(real_sizes@[i as int] == real_size(s, i as int));
            assert(target_sizes@[i as int] == target_size(s, o, i as int));
            if target_sizes[i] > 0 && real_sizes[i] > target_sizes[i] {
                match best {
                    None => {
                        best = Some(i);
                    },
                    Some(b) => {
                        assert(real_sizes@[b as int] == real_size(s, b as int));
                        assert(target_sizes@[b as int] == target_size(s, o, b as int));
                        if at_least(real_sizes[i], target_sizes[b], real_sizes[b], target_sizes[i]) {
                            best = Some(i);
                        }
                    },
                }
            }
            i += 1;
        }
        proof {
            lemma_fullest(s, o, n as int);
        }
        match best {
            None => None,
            Some(b) => {
                let level: &Vec<usize> = &snapshot.levels[b].1;
                proof {
                    assert(level@ == s.levels[b as int].1);
                    assert(level_known(s, b as int));
                    assert(level_known(s, b + 1));
                    assert(level@.len() > 0);
                }
                let selected: usize = min_id(level);
                let mut upper: Vec<usize> = Vec::new();
                upper.push(selected);
                assert(upper@ =~= seq![oldest(s.levels[b as int].1)]);
                let lower: Vec<usize> = self.find_overlapping_ssts(snapshot, &upper, b + 2);
                Some(
                    LeveledCompactionTask {
                        upper_level: Some(b + 1),
                        upper_level_sst_ids: upper,
                        lower_level: b + 2,
                        lower_level_sst_ids: lower,
                        is_lower_level_bottom_level: b + 2 == n,
                    },
                )
            },
        }
    }

    /// The state in which the tables of a task are replaced by its output, and the tables that are
    /// no longer needed. While the state is being recovered the tables of the lower level are not
    /// sorted.
    pub fn apply_compaction_result(
        &self,
        snapshot: &LsmStorageState,
        task: &LeveledCompactionTask,
        output: &[usize],
        in_recovery: bool,
    ) -> (r: (LsmStorageState, Vec<usize>))
        requires
            leveled_applies(snapshot@, task@, output@, in_recovery),
        ensures
            r.0@ == leveled_applied(snapshot@, task@, output@, in_recovery),
            r.1@ == task@.upper + task@.lower,
            snapshot.wf() ==> r.0.wf(),
    {
        let ghost s = snapshot@;
        let ghost t = task@;
        let mut state = snapshot.snapshot();
        match task.upper_level {
            Some(upper_level) => {
                assert(s.levels[upper_level - 1].1 == state@.levels[upper_level - 1].1);
                let kept: Vec<usize> = ids::remove_ids(
                    &state.levels[upper_level - 1].1,
                    &task.upper_level_sst_ids,
                );
                state.levels[upper_level - 1].1 = kept;
            },
            None => {
                state.l0_sstables = ids::remove_ids(&state.l0_sstables, &task.upper_level_sst_ids);
            },
        }
        assert(state@ =~= upper_taken(s, t));
        let mut files_to_remove: Vec<usize> = ids::copy_ids(&task.upper_level_sst_ids);
        ids::extend_ids(&mut files_to_remove, task.lower_level_sst_ids.as_slice());
        assert(state.levels@[task.lower_level - 1].1@ == state@.levels[task.lower_level - 1].1);
        let mut new_lower: Vec<usize> = ids::remove_ids(
            &state.levels[task.lower_level - 1].1,
            &task.lower_level_sst_ids,
        );
        ids::extend_ids(&mut new_lower, output);
        assert(new_lower@ == lower_merged(s, t, output@));
        if !in_recovery {
            new_lower = ids::sort_by_first_key(snapshot, &new_lower);
        }
        state.levels[task.lower_level - 1].1 = new_lower;
        assert(state@ =~= leveled_applied(s, t, output@, in_recovery));
        (state, files_to_remove)
    }
}

/// The first key of a known table.
fn first_key_in<'a>(snapshot: &'a LsmStorageState, id: usize) -> (r: &'a KeyBytes)
    requires
        snapshot@.tables.dom().contains(id),
    ensures
        r@ == snapshot@.tables[id].first_key,
{
    snapshot.table(id).unwrap().first_key()
}

/// The last key of a known table.
fn last_key_in<'a>(snapshot: &'a LsmStorageState, id: usize) -> (r: &'a KeyBytes)
    requires
        snapshot@.tables.dom().contains(id),
    ensures
        r@ == snapshot@.tables[id].last_key,
{
    snapshot.table(id).unwrap().last_key()
}

/// The size of tables together.
fn sum_sizes(snapshot: &LsmStorageState, list: &Vec<usize>) -> (r: usize)
    requires
        snapshot@.knows(list@),
        size_of(snapshot@.tables, list@) <= usize::MAX,
    ensures
        r == size_of(snapshot@.tables, list@),
{
    let ghost tables = snapshot@.tables;
    let mut sum: usize = 0;
    let mut i: usize = 0;
    assert(list@.take(0) =~= Seq::empty());
    while i < list.len()
        invariant
            i <= list@.len(),
            tables == snapshot@.tables,
            snapshot@.knows(list@),
            size_of(tables, list@) <= usize::MAX,
            sum == size_of(tables, list@.take(i as int)),
        decreases list@.len() - i,
    {
        proof {
            assert(list@.take(i + 1).drop_last() =~= list@.take(i as int));
            lemma_size_take(tables, list@, i + 1);
        }
        sum += snapshot.table(list[i]).unwrap().table_size() as usize;
        i += 1;
    }
    assert(list@.take(i as int) =~= list@);
    sum
}

/// Whether tables are known.
fn known_ids(snapshot: &LsmStorageState, list: &Vec<usize>) -> (r: bool)
    ensures
        r == snapshot@.knows(list@),
{
    let mut i: usize = 0;
    while i < list.len()
        invariant
            i <= list@.len(),
            forall|j: int| 0 <= j < i ==> snapshot@.tables.dom().contains(#[trigger] list@[j]),
        decreases list@.len() - i,
    {
        if snapshot.table(list[i]).is_none() {
            assert(!snapshot@.tables.dom().contains(list@[i as int]));
            return false;
        }
        i += 1;
    }
    true
}

/// The size of tables together, where they are known and it can be represented.
fn known_size(snapshot: &LsmStorageState, list: &Vec<usize>) -> (r: Option<usize>)
    ensures
        match r {
            Some(n) => snapshot@.knows(list@) && n == size_of(snapshot@.tables, list@),
            None => !snapshot@.knows(list@) || size_of(snapshot@.tables, list@) > usize::MAX,
        },
{
    let ghost tables = snapshot@.tables;
    let mut sum: usize = 0;
    let mut i: usize = 0;
    assert(list@.take(0) =~= Seq::empty());
    while i < list.len()
        invariant
            i <= list@.len(),
            tables == snapshot@.tables,
            forall|j: int| 0 <= j < i ==> tables.dom().contains(#[trigger] list@[j]),
            sum == size_of(tables, list@.take(i as int)),
        decreases list@.len() - i,
    {
        proof {
            assert(list@.take(i + 1).drop_last() =~= list@.take(i as int));
            lemma_size_take(tables, list@, i + 1);
        }
        let size: u64 = match snapshot.table(list[i]) {
            Some(table) => table.table_size(),
            None => {
                assert(!tables.dom().contains(list@[i as int]));
                return None;
            },
        };
        if size as u128 + sum as u128 > usize::MAX as u128 {
            return None;
        }
        sum += size as usize;
        i += 1;
    }
    assert(list@.take(i as int) =~= list@);
    Some(sum)
}

/// The smallest number of a list.
fn min_id(list: &Vec<usize>) -> (r: usize)
    requires
        list@.len() > 0,
    ensures
        r == oldest(list@),
        list@.contains(r),
{
    let mut min: usize = list[0];
    let mut i: usize = 1;
    assert(list@.take(1).last() == list@[0]);
    while i < list.len()
        invariant
            1 <= i <= list@.len(),
            min == oldest(list@.take(i as int)),
            list@.contains(min),
        decreases list@.len() - i,
    {
        assert(list@.take(i + 1).drop_last() =~= list@.take(i as int));
        if list[i] < min {
            min = list[i];
        }
        i += 1;
    }
    assert(list@.take(i as int) =~= list@);
    min
}

/// Whether `a * b` is at least `c * d`.
fn at_least(a: usize, b: usize, c: usize, d: usize) -> (r: bool)
    ensures
        r == (a * b >= c * d),
{
    assert(0 <= a * b <= 0xffff_ffff_ffff_ffff * 0xffff_ffff_ffff_ffff) by (nonlinear_arith)
        requires
            0 <= a <= 0xffff_ffff_ffff_ffff,
            0 <= b <= 0xffff_ffff_ffff_ffff,
    ;
    assert(0 <= c * d <= 0xffff_ffff_ffff_ffff * 0xffff_ffff_ffff_ffff) by (nonlinear_arith)
        requires
            0 <= c <= 0xffff_ffff_ffff_ffff,
            0 <= d <= 0xffff_ffff_ffff_ffff,
    ;
    (a as u128) * (b as u128) >= (c as u128) * (d as u128)
}

} // verus!
