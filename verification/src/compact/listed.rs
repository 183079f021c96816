//! Which tables the lists of a state name, and what a compaction makes of them.

use vstd::multiset::Multiset;
use vstd::prelude::*;

use super::gc::Output;
use super::tiered::TieredCompactionOptions;
use super::{CompactionOptions, LevelTaskView, TaskView};
use crate::compact;
use crate::compact::ids;
use crate::compact::leveled;
use crate::compact::order;
use crate::compact::simple_leveled;
use crate::compact::tiered;
use crate::key::Key;
use crate::lsm_storage::StateView;
use crate::table::TableView;

verus! {

/// The numbers of the tables in L0 and in the levels or tiers.
pub open spec fn listed(s: StateView) -> Seq<usize> {
    s.l0 + tiered::tier_files(s.levels)
}

/// The numbers of the tables that a task names.
pub open spec fn task_files(t: TaskView) -> Seq<usize> {
    match t {
        TaskView::Leveled(t) => t.upper + t.lower,
        TaskView::Simple(t) => t.upper + t.lower,
        TaskView::Tiered(t) => tiered::tier_files(t.tiers),
        TaskView::Full(l0, l1) => l0 + l1,
    }
}

/// How often a list names a table.
spec fn times(list: Seq<usize>, id: usize) -> nat {
    list.to_multiset().count(id)
}

proof fn lemma_times_concat(a: Seq<usize>, b: Seq<usize>, id: usize)
    ensures
        times(a + b, id) == times(a, id) + times(b, id),
{
    vstd::seq_lib::lemma_multiset_commutative(a, b);
}

proof fn lemma_times_empty(id: usize)
    ensures
        times(Seq::empty(), id) == 0,
{
    broadcast use vstd::seq_lib::group_to_multiset_ensures;

    assert(!Seq::<usize>::empty().contains(id));
}

proof fn lemma_times_one(x: usize, id: usize)
    ensures
        times(seq![x], id) == if x == id {
            1nat
        } else {
            0nat
        },
{
    broadcast use vstd::seq_lib::group_to_multiset_ensures;

    let none = Seq::<usize>::empty();
    lemma_times_empty(id);
    assert(seq![x] =~= none.push(x));
    assert(none.push(x).to_multiset() =~= none.to_multiset().insert(x));
}

proof fn lemma_times_first(list: Seq<usize>, id: usize)
    requires
        list.len() > 0,
    ensures
        times(list, id) == times(list.drop_first(), id) + if list[0] == id {
            1nat
        } else {
            0nat
        },
{
    assert(list =~= seq![list[0]] + list.drop_first());
    lemma_times_concat(seq![list[0]], list.drop_first(), id);
    lemma_times_one(list[0], id);
}

proof fn lemma_times_contains(list: Seq<usize>, id: usize)
    ensures
        list.contains(id) <==> times(list, id) > 0,
{
    broadcast use vstd::seq_lib::group_to_multiset_ensures;

}

/// A list without duplicates names nothing twice.
proof fn lemma_times_once(list: Seq<usize>, id: usize)
    requires
        list.no_duplicates(),
    ensures
        times(list, id) <= 1,
{
    list.lemma_multiset_has_no_duplicates();
    if times(list, id) > 0 {
        assert(list.to_multiset().contains(id));
    }
}

proof fn lemma_once(list: Seq<usize>)
    requires
        forall|id: usize| #[trigger] times(list, id) <= 1,
    ensures
        list.no_duplicates(),
{
    assert forall|id: usize| list.to_multiset().contains(id) implies list.to_multiset().count(id)
        == 1 by {
        assert(times(list, id) <= 1);
    }
    list.lemma_multiset_has_no_duplicates_conv();
}

/// Taking numbers out of a list leaves the others.
proof fn lemma_times_without(list: Seq<usize>, set: Set<usize>, id: usize)
    requires
        forall|x: usize| #[trigger] times(list, x) <= 1,
    ensures
        times(ids::without(list, set), id) == if set.contains(id) {
            0nat
        } else {
            times(list, id)
        },
    decreases list.len(),
{
    if list.len() == 0 {
        lemma_times_empty(id);
        assert(list =~= Seq::empty());
    } else {
        let rest = list.drop_first();
        lemma_times_first(list, id);
        assert forall|x: usize| #[trigger] times(rest, x) <= 1 by {
            lemma_times_first(list, x);
            assert(times(list, x) <= 1);
        }
        assert(times(list, list[0]) <= 1);
        lemma_times_first(list, list[0]);
        if set.contains(list[0]) {
            lemma_times_without(rest, set.remove(list[0]), id);
        } else {
            lemma_times_without(rest, set, id);
            lemma_times_concat(seq![list[0]], ids::without(rest, set), id);
            lemma_times_one(list[0], id);
        }
    }
}

/// What is taken out of a list and what is left are together the list.
proof fn lemma_times_taken(list: Seq<usize>, part: Seq<usize>, id: usize)
    requires
        forall|x: usize| #[trigger] times(list, x) <= 1,
        forall|x: usize| #[trigger] times(part, x) <= 1,
        ids::covers(list, part),
    ensures
        times(ids::without(list, part.to_set()), id) + times(part, id) == times(list, id),
{
    lemma_times_without(list, part.to_set(), id);
    lemma_times_contains(part, id);
    lemma_times_contains(list, id);
    assert(times(part, id) <= 1 && times(list, id) <= 1);
    assert(part.to_set().contains(id) <==> part.contains(id));
    if part.contains(id) {
        let i = choose|i: int| 0 <= i < part.len() && part[i] == id;
        assert(list.contains(part[i]));
    }
}

proof fn lemma_files_first(tiers: Seq<(usize, Seq<usize>)>, id: usize)
    requires
        tiers.len() > 0,
    ensures
        times(tiered::tier_files(tiers), id) == times(tiers[0].1, id) + times(
            tiered::tier_files(tiers.drop_first()),
            id,
        ),
{
    lemma_times_concat(tiers[0].1, tiered::tier_files(tiers.drop_first()), id);
}

proof fn lemma_files_concat(
    a: Seq<(usize, Seq<usize>)>,
    b: Seq<(usize, Seq<usize>)>,
    id: usize,
)
    ensures
        times(tiered::tier_files(a + b), id) == times(tiered::tier_files(a), id) + times(
            tiered::tier_files(b),
            id,
        ),
    decreases a.len(),
{
    if a.len() == 0 {
        assert(a + b =~= b);
        lemma_times_empty(id);
        assert(tiered::tier_files(a) =~= Seq::empty());
    } else {
        assert((a + b).drop_first() =~= a.drop_first() + b);
        lemma_files_concat(a.drop_first(), b, id);
        lemma_files_first(a, id);
        lemma_files_first(a + b, id);
    }
}

/// A level with other tables in its place.
proof fn lemma_files_update(
    levels: Seq<(usize, Seq<usize>)>,
    i: int,
    level: (usize, Seq<usize>),
    id: usize,
)
    requires
        0 <= i < levels.len(),
    ensures
        times(tiered::tier_files(levels.update(i, level)), id) + times(levels[i].1, id) == times(
            tiered::tier_files(levels),
            id,
        ) + times(level.1, id),
    decreases levels.len(),
{
    let now = levels.update(i, level);
    lemma_files_first(levels, id);
    lemma_files_first(now, id);
    if i == 0 {
        assert(now.drop_first() =~= levels.drop_first());
    } else {
        assert(now.drop_first() =~= levels.drop_first().update(i - 1, level));
        lemma_files_update(levels.drop_first(), i - 1, level, id);
    }
}

proof fn lemma_listed(s: StateView, id: usize)
    ensures
        times(listed(s), id) == times(s.l0, id) + times(tiered::tier_files(s.levels), id),
{
    lemma_times_concat(s.l0, tiered::tier_files(s.levels), id);
}

/// The lists of a state name nothing more often than the state does.
proof fn lemma_lists_once(s: StateView)
    requires
        listed(s).no_duplicates(),
    ensures
        forall|id: usize| #[trigger] times(s.l0, id) <= 1,
        forall|i: int, id: usize| 0 <= i < s.levels.len() ==> #[trigger] times(s.levels[i].1, id) <= 1,
{
    assert forall|id: usize| #[trigger] times(s.l0, id) <= 1 by {
        lemma_listed(s, id);
        lemma_times_once(listed(s), id);
    }
    assert forall|i: int, id: usize| 0 <= i < s.levels.len() implies #[trigger] times(
        s.levels[i].1,
        id,
    ) <= 1 by {
        lemma_listed(s, id);
        lemma_times_once(listed(s), id);
        lemma_level_times(s.levels, i, id);
    }
}

proof fn lemma_level_times(levels: Seq<(usize, Seq<usize>)>, i: int, id: usize)
    requires
        0 <= i < levels.len(),
    ensures
        times(levels[i].1, id) <= times(tiered::tier_files(levels), id),
{
    let none = (levels[i].0, Seq::<usize>::empty());
    lemma_times_empty(id);
    lemma_files_update(levels, i, none, id);
}

/// The tables of a level that overlap a range are named at most as often as in the level.
proof fn lemma_times_overlapping(
    tables: Map<usize, TableView>,
    level: Seq<usize>,
    begin: Key,
    end: Key,
    id: usize,
)
    ensures
        times(leveled::overlapping(tables, level, begin, end), id) <= times(level, id),
    decreases level.len(),
{
    if level.len() == 0 {
        assert(level =~= Seq::empty());
        lemma_times_empty(id);
    } else {
        let init = level.drop_last();
        let some = leveled::overlapping(tables, init, begin, end);
        lemma_times_overlapping(tables, init, begin, end, id);
        assert(level =~= init + seq![level.last()]);
        lemma_times_concat(init, seq![level.last()], id);
        assert(some.push(level.last()) =~= some + seq![level.last()]);
        lemma_times_concat(some, seq![level.last()], id);
    }
}

/// The numbers after a task of the leveled controller.
proof fn lemma_leveled_times(
    s: StateView,
    t: LevelTaskView,
    output: Seq<usize>,
    in_recovery: bool,
    id: usize,
)
    requires
        listed(s).no_duplicates(),
        leveled::leveled_applies(s, t, output, in_recovery),
        forall|x: usize| #[trigger] times(t.upper, x) <= 1,
        forall|x: usize| #[trigger] times(t.lower, x) <= 1,
        t.upper_level matches Some(u) ==> u != t.lower_level,
    ensures
        times(listed(leveled::leveled_applied(s, t, output, in_recovery)), id) + times(
            t.upper + t.lower,
            id,
        ) == times(listed(s), id) + times(output, id),
        times(t.upper + t.lower, id) <= times(listed(s), id),
{
    let taken = leveled::upper_taken(s, t);
    let low = t.lower_level - 1;
    let level = s.levels[low].1;
    let merged = leveled::lower_merged(s, t, output);
    let done = leveled::leveled_applied(s, t, output, in_recovery);
    lemma_lists_once(s);
    lemma_listed(s, id);
    lemma_listed(taken, id);
    lemma_listed(done, id);
    lemma_times_concat(t.upper, t.lower, id);
    match t.upper_level {
        Some(u) => {
            let from = s.levels[u - 1].1;
            lemma_times_taken(from, t.upper, id);
            lemma_files_update(
                s.levels,
                u - 1,
                (s.levels[u - 1].0, ids::without(from, t.upper.to_set())),
                id,
            );
        },
        None => {
            lemma_times_taken(s.l0, t.upper, id);
        },
    }
    assert(taken.levels[low].1 == level);
    lemma_times_taken(level, t.lower, id);
    lemma_times_concat(ids::without(level, t.lower.to_set()), output, id);
    ids::lemma_sorted_by_first_key(s.tables, merged);
    lemma_files_update(taken.levels, low, done.levels[low], id);
    lemma_level_times(taken.levels, low, id);
}

/// The numbers after a task of the simple controller.
proof fn lemma_simple_times(s: StateView, t: LevelTaskView, output: Seq<usize>, id: usize)
    requires
        listed(s).no_duplicates(),
        simple_leveled::simple_applies(s, t),
        forall|x: usize| #[trigger] times(t.upper, x) <= 1,
    ensures
        times(listed(simple_leveled::simple_applied(s, t, output)), id) + times(
            t.upper + t.lower,
            id,
        ) == times(listed(s), id) + times(output, id),
        times(t.upper + t.lower, id) <= times(listed(s), id),
{
    let taken = simple_leveled::upper_taken(s, t);
    let low = t.lower_level - 1;
    let done = simple_leveled::simple_applied(s, t, output);
    lemma_lists_once(s);
    lemma_listed(s, id);
    lemma_listed(taken, id);
    lemma_listed(done, id);
    lemma_times_concat(t.upper, t.lower, id);
    match t.upper_level {
        Some(u) => {
            lemma_times_empty(id);
            lemma_files_update(s.levels, u - 1, (s.levels[u - 1].0, Seq::empty()), id);
        },
        None => {
            lemma_times_taken(s.l0, t.upper, id);
        },
    }
    lemma_files_update(taken.levels, low, done.levels[low], id);
    lemma_level_times(taken.levels, low, id);
}

/// The numbers after tiers were replaced.
proof fn lemma_tiers_times(
    tiers: Seq<(usize, Seq<usize>)>,
    pending: Set<usize>,
    placed: bool,
    output: Seq<usize>,
    id: usize,
)
    requires
        placed || forall|x: usize| #[trigger]
            pending.contains(x) ==> tiered::tier_ids(tiers).contains(x),
    ensures
        times(tiered::tier_files(tiered::replaced(tiers, pending, placed, output)), id) + times(
            tiered::replaced_files(tiers, pending),
            id,
        ) == times(tiered::tier_files(tiers), id) + if placed || tiers.len() == 0 {
            0nat
        } else {
            times(output, id)
        },
        times(tiered::replaced_files(tiers, pending), id) <= times(tiered::tier_files(tiers), id),
    decreases tiers.len(),
{
    lemma_times_empty(id);
    if tiers.len() > 0 {
        let first = tiers[0].0;
        let rest = tiers.drop_first();
        let left = pending.remove(first);
        let kept = if pending.contains(first) {
            Seq::empty()
        } else {
            seq![tiers[0]]
        };
        let place = left =~= Set::empty() && !placed;
        let new = if place && output.len() > 0 {
            seq![(output[0], output)]
        } else {
            Seq::empty()
        };
        if !placed {
            assert forall|x: usize| #[trigger] left.contains(x) implies tiered::tier_ids(
                rest,
            ).contains(x) by {
                assert(pending.contains(x));
                let all = Seq::new(tiers.len(), |i: int| tiers[i].0);
                let i = choose|i: int| 0 <= i < all.len() && all[i] == x;
                let some = Seq::new(rest.len(), |i: int| rest[i].0);
                assert(some[i - 1] == x);
            }
            if !place {
                let x = choose|x: usize| left.contains(x);
                assert(!(left =~= Set::empty()));
                assert(exists|x: usize| left.contains(x)) by {
                    if forall|x: usize| !left.contains(x) {
                        assert(left =~= Set::empty());
                    }
                }
                assert(tiered::tier_ids(rest).contains(x));
                assert(rest.len() > 0);
            }
        }
        lemma_tiers_times(rest, left, placed || place, output, id);
        let more = tiered::replaced(rest, left, placed || place, output);
        lemma_files_concat(kept + new, more, id);
        lemma_files_concat(kept, new, id);
        lemma_files_first(tiers, id);
        lemma_tier_times(kept, id);
        lemma_tier_times(new, id);
        assert(output.len() == 0 ==> output =~= Seq::empty());
        assert(!pending.contains(first) ==> left =~= pending);
        lemma_times_concat(tiers[0].1, tiered::replaced_files(rest, left), id);
    }
}

/// One tier at most.
proof fn lemma_tier_times(tiers: Seq<(usize, Seq<usize>)>, id: usize)
    requires
        tiers.len() <= 1,
    ensures
        times(tiered::tier_files(tiers), id) == if tiers.len() == 0 {
            0
        } else {
            times(tiers[0].1, id)
        },
{
    lemma_times_empty(id);
    if tiers.len() > 0 {
        lemma_files_first(tiers, id);
        assert(tiers.drop_first() =~= Seq::empty());
    }
}

/// The numbers after a task that was generated, applied to a state with the same lists.
proof fn lemma_applied_times(
    o: CompactionOptions,
    s: StateView,
    now: StateView,
    output: Seq<usize>,
    in_recovery: bool,
    id: usize,
)
    requires
        compact::choosable(o, s),
        o is Tiered ==> tiered::distinct(s.levels),
        compact::task_for(o, s) is Some,
        listed(s).no_duplicates(),
        now.l0 == s.l0,
        now.levels == s.levels,
        s.tables.dom().subset_of(now.tables.dom()),
        now.knows(output),
    ensures
        ({
            let t = compact::task_for(o, s)->0;
            let removed = compact::replaced_files(now, t);
            &&& compact::applicable(o, now, t, output, in_recovery)
            &&& times(removed, id) == times(task_files(t), id)
            &&& times(listed(compact::applied(now, t, output, in_recovery)), id) + times(
                removed,
                id,
            ) == times(listed(s), id) + times(output, id)
            &&& times(removed, id) <= times(listed(s), id)
        }),
{
    let none = Seq::<usize>::empty();
    assert(none + s.l0 =~= s.l0);
    lemma_lists_once(s);
    match o {
        CompactionOptions::Leveled(o) => {
            let t = leveled::leveled_task(s, o)->0;
            leveled::lemma_leveled_task_applies(s, o, now, none, output, in_recovery);
            leveled::lemma_fullest(s, o, o.max_levels as int);
            leveled::lemma_base_level(s, o, 0);
            assert forall|x: usize| #[trigger] times(t.upper, x) <= 1 by {
                if !leveled::l0_full(s, o) {
                    lemma_times_one(t.upper[0], x);
                    assert(t.upper =~= seq![t.upper[0]]);
                }
            }
            assert forall|x: usize| #[trigger] times(t.lower, x) <= 1 by {
                lemma_times_overlapping(
                    s.tables,
                    s.levels[t.lower_level - 1].1,
                    leveled::begin_key(s.tables, t.upper),
                    leveled::end_key(s.tables, t.upper),
                    x,
                );
                assert(times(s.levels[t.lower_level - 1].1, x) <= 1);
            }
            lemma_leveled_times(now, t, output, in_recovery, id);
        },
        CompactionOptions::Simple(o) => {
            let t = simple_leveled::simple_task(s, o)->0;
            simple_leveled::lemma_simple_task_applies(s, o, none);
            if !simple_leveled::l0_full(s, o) {
                simple_leveled::lemma_ratio_task(s, o, 1);
            }
            assert(simple_leveled::simple_applies(now, t));
            lemma_simple_times(now, t, output, id);
        },
        CompactionOptions::Tiered(o) => {
            let t = tiered::tiered_task(s, o)->0;
            let no_tiers = Seq::<(usize, Seq<usize>)>::empty();
            assert(no_tiers + s.levels =~= s.levels);
            tiered::lemma_tiered_task_applies(s, o, no_tiers);
            tiered::lemma_tiered_task(s, o);
            let n = t.tiers.len() as int;
            let rest = s.levels.skip(n);
            assert(no_tiers + t.tiers + rest =~= s.levels);
            assert forall|x: usize| #[trigger]
                tiered::tier_ids(t.tiers).contains(x) implies tiered::tier_ids(
                s.levels,
            ).contains(x) by {
                let some = Seq::new(t.tiers.len(), |i: int| t.tiers[i].0);
                let all = Seq::new(s.levels.len(), |i: int| s.levels[i].0);
                let i = choose|i: int| 0 <= i < some.len() && some[i] == x;
                assert(all[i] == x);
            }
            lemma_tiers_times(s.levels, tiered::tier_ids(t.tiers), false, output, id);
            if n > 0 {
                tiered::lemma_tiered_applied(no_tiers, t.tiers, rest, output);
            } else {
                assert(tiered::tier_ids(t.tiers) =~= Set::empty());
                tiered::lemma_replaced_none(s.levels, output);
                lemma_times_empty(id);
            }
            lemma_listed(s, id);
            lemma_listed(tiered::tiered_applied(now, t, output), id);
        },
        CompactionOptions::NoCompaction => {},
    }
}

/// A task that was generated for a state can be applied to it once the numbers of its output are
/// known. It removes exactly the tables that it names, the lists name what they named before
/// without these and with the output, and the tables stay known.
pub proof fn lemma_applied_listed(
    o: CompactionOptions,
    s: StateView,
    output: Seq<usize>,
    in_recovery: bool,
)
    requires
        compact::choosable(o, s),
        o is Tiered ==> tiered::distinct(s.levels),
        compact::task_for(o, s) is Some,
        listed(s).no_duplicates(),
        s.knows(output),
    ensures
        ({
            let t = compact::task_for(o, s)->0;
            let removed = compact::replaced_files(s, t);
            let done = compact::applied(s, t, output, in_recovery);
            &&& compact::applicable(o, s, t, output, in_recovery)
            &&& removed.to_multiset() == task_files(t).to_multiset()
            &&& removed.to_multiset().subset_of(listed(s).to_multiset())
            &&& listed(done).to_multiset() == listed(s).to_multiset().sub(
                removed.to_multiset(),
            ).add(output.to_multiset())
            &&& done.tables == s.tables
        }),
{
    broadcast use vstd::multiset::group_multiset_axioms;

    let t = compact::task_for(o, s)->0;
    let removed = compact::replaced_files(s, t);
    let done = compact::applied(s, t, output, in_recovery);
    lemma_applied_times(o, s, s, output, in_recovery, 0);
    let a: Multiset<usize> = listed(done).to_multiset();
    let b: Multiset<usize> = listed(s).to_multiset().sub(removed.to_multiset()).add(
        output.to_multiset(),
    );
    assert forall|id: usize| #[trigger] removed.to_multiset().count(id) == task_files(
        t,
    ).to_multiset().count(id) by {
        lemma_applied_times(o, s, s, output, in_recovery, id);
    }
    assert forall|id: usize| #[trigger] removed.to_multiset().count(id) <= listed(
        s,
    ).to_multiset().count(id) by {
        lemma_applied_times(o, s, s, output, in_recovery, id);
    }
    assert forall|id: usize| #[trigger] a.count(id) == b.count(id) by {
        lemma_applied_times(o, s, s, output, in_recovery, id);
    }
    assert(removed.to_multiset() =~= task_files(t).to_multiset());
    assert(a =~= b);
}

/// The lists of a state name each table that it knows once and nothing else, and the numbers of the
/// tables are below `next`.
pub open spec fn exactly_listed(s: StateView, next: int) -> bool {
    &&& listed(s).no_duplicates()
    &&& forall|id: usize| #[trigger] s.tables.dom().contains(id) <==> listed(s).contains(id)
    &&& forall|id: usize| #[trigger] s.tables.dom().contains(id) ==> id < next
}

proof fn lemma_new_numbers(out: Output, next: usize)
    requires
        next + out.tables.len() <= usize::MAX,
    ensures
        order::numbered(compact::tables_from(out, next as int), next as int),
        forall|id: usize| #[trigger]
            times(compact::ids_of(compact::tables_from(out, next as int)), id) == if next <= id
                < next + out.tables.len() {
                1nat
            } else {
                0nat
            },
{
    let new = compact::tables_from(out, next as int);
    let output = compact::ids_of(new);
    assert forall|i: int| 0 <= i < new.len() implies (#[trigger] new[i]).id == next + i by {}
    assert(output.no_duplicates());
    assert forall|id: usize| #[trigger] times(output, id) == if next <= id < next
        + out.tables.len() {
        1nat
    } else {
        0nat
    } by {
        lemma_times_once(output, id);
        lemma_times_contains(output, id);
        if next <= id < next + out.tables.len() {
            assert(output[id - next] == id);
        }
    }
}

/// The lists and the tables of a state change alike.
proof fn lemma_stays_exact(
    s: StateView,
    s2: StateView,
    removed: Seq<usize>,
    new: Seq<TableView>,
    next: usize,
)
    requires
        exactly_listed(s, next as int),
        next + new.len() <= usize::MAX,
        order::numbered(new, next as int),
        forall|id: usize|
            times(#[trigger] listed(s2), id) + times(removed, id) == times(listed(s), id) + times(
                compact::ids_of(new),
                id,
            ),
        forall|id: usize| #[trigger] times(removed, id) <= times(listed(s), id),
        forall|id: usize| #[trigger]
            times(compact::ids_of(new), id) == if next <= id < next + new.len() {
                1nat
            } else {
                0nat
            },
        forall|id: usize| #[trigger]
            s2.tables.dom().contains(id) <==> !removed.contains(id) && (s.tables.dom().contains(id)
                || next <= id < next + new.len()),
    ensures
        exactly_listed(s2, next + new.len()),
{
    assert forall|id: usize| #[trigger] times(listed(s2), id) <= 1 && (s2.tables.dom().contains(id)
        <==> listed(s2).contains(id)) by {
        lemma_times_once(listed(s), id);
        lemma_times_contains(listed(s), id);
        lemma_times_contains(listed(s2), id);
        lemma_times_contains(removed, id);
        assert(s.tables.dom().contains(id) ==> id < next);
        assert(times(compact::ids_of(new), id) <= 1);
        assert(times(removed, id) <= times(listed(s), id));
    }
    lemma_once(listed(s2));
    assert forall|id: usize| #[trigger] s2.tables.dom().contains(id) <==> listed(s2).contains(
        id,
    ) by {
        assert(times(listed(s2), id) <= 1);
    }
}

proof fn lemma_known_numbers(m: Map<usize, TableView>, new: Seq<TableView>, next: usize)
    requires
        order::numbered(new, next as int),
        forall|id: usize| #[trigger] m.dom().contains(id) ==> id < next,
    ensures
        forall|id: usize| #[trigger]
            compact::stored(m, new).dom().contains(id) <==> m.dom().contains(id) || next <= id
                < next + new.len(),
{
    order::lemma_stored_lookup(m, new, next as int);
    assert forall|id: usize| #[trigger] compact::stored(m, new).dom().contains(id) <==> m.dom().contains(
        id,
    ) || next <= id < next + new.len() by {
        if next <= id < next + new.len() {
            assert(new[id - next].id == id);
        }
    }
}

/// After a compaction that was due the lists name again each table that the state knows once and
/// nothing else.
pub proof fn lemma_installed_listed(o: CompactionOptions, s: StateView, out: Output, next: usize)
    requires
        compact::choosable(o, s),
        o is Tiered ==> tiered::distinct(s.levels),
        compact::task_for(o, s) is Some,
        exactly_listed(s, next as int),
        next + out.tables.len() <= usize::MAX,
    ensures
        exactly_listed(
            compact::installed(
                s,
                compact::task_for(o, s)->0,
                compact::tables_from(out, next as int),
            ),
            next + out.tables.len(),
        ),
{
    let t = compact::task_for(o, s)->0;
    let new = compact::tables_from(out, next as int);
    let output = compact::ids_of(new);
    let now = StateView { tables: compact::stored(s.tables, new), ..s };
    let removed = compact::replaced_files(now, t);
    let placed = compact::applied(now, t, output, false);
    let s2 = compact::installed(s, t, new);
    lemma_new_numbers(out, next);
    lemma_known_numbers(s.tables, new, next);
    assert forall|i: int| 0 <= i < output.len() implies now.tables.dom().contains(
        #[trigger] output[i],
    ) by {
        assert(new[i].id == next + i);
    }
    assert(listed(s2) == listed(placed));
    assert(placed.tables == now.tables);
    assert forall|id: usize|
        times(#[trigger] listed(s2), id) + times(removed, id) == times(listed(s), id) + times(
            output,
            id,
        ) by {
        lemma_applied_times(o, s, now, output, false, id);
    }
    assert forall|id: usize| #[trigger] times(removed, id) <= times(listed(s), id) by {
        lemma_applied_times(o, s, now, output, false, id);
    }
    assert forall|id: usize| #[trigger] s2.tables.dom().contains(id) <==> !removed.contains(id) && (
    s.tables.dom().contains(id) || next <= id < next + new.len()) by {
        assert(removed.to_set().contains(id) <==> removed.contains(id));
        assert(now.tables.dom().contains(id) <==> s.tables.dom().contains(id) || next <= id < next
            + new.len());
    }
    lemma_stays_exact(s, s2, removed, new, next);
}

/// The tables of L0 and L1 of a state whose lists name each of its tables once can be compacted into
/// L1, and then the lists name again each table that the state knows once and nothing else.
pub proof fn lemma_fully_installed_listed(s: StateView, out: Output, next: usize)
    requires
        s.levels.len() > 0,
        exactly_listed(s, next as int),
        next + out.tables.len() <= usize::MAX,
    ensures
        compact::full_applies(s, s.l0, s.levels[0].1),
        exactly_listed(
            compact::fully_installed(
                s,
                s.l0,
                s.levels[0].1,
                compact::tables_from(out, next as int),
            ),
            next + out.tables.len(),
        ),
{
    let l0 = s.l0;
    let l1 = s.levels[0].1;
    let removed = l0 + l1;
    let new = compact::tables_from(out, next as int);
    let output = compact::ids_of(new);
    let s2 = compact::fully_installed(s, l0, l1, new);
    lemma_new_numbers(out, next);
    lemma_lists_once(s);
    assert forall|id: usize|
        times(#[trigger] listed(s2), id) + times(removed, id) == times(listed(s), id) + times(
            output,
            id,
        ) && times(removed, id) <= times(listed(s), id) by {
        lemma_full_times(s, s2, output, id);
    }
    assert forall|id: usize| #[trigger] times(removed, id) <= times(listed(s), id) by {
        lemma_full_times(s, s2, output, id);
    }
    assert forall|id: usize| #[trigger] times(removed, id) <= 1 by {
        lemma_times_once(listed(s), id);
    }
    lemma_once(removed);
    assert forall|i: int| 0 <= i < removed.len() implies s.tables.dom().contains(
        #[trigger] removed[i],
    ) by {
        lemma_times_contains(removed, removed[i]);
        lemma_times_contains(listed(s), removed[i]);
        assert(times(removed, removed[i]) <= times(listed(s), removed[i]));
    }
    let rest = s.tables.remove_keys(removed.to_set());
    assert forall|id: usize| #[trigger] rest.dom().contains(id) implies id < next by {
        assert(s.tables.dom().contains(id));
    }
    lemma_known_numbers(rest, new, next);
    assert forall|id: usize| #[trigger] s2.tables.dom().contains(id) <==> !removed.contains(id) && (
    s.tables.dom().contains(id) || next <= id < next + new.len()) by {
        assert(removed.to_set().contains(id) <==> removed.contains(id));
        assert(rest.dom().contains(id) <==> s.tables.dom().contains(id) && !removed.contains(id));
        if removed.contains(id) {
            let i = choose|i: int| 0 <= i < removed.len() && removed[i] == id;
            assert(s.tables.dom().contains(removed[i]));
        }
    }
    lemma_stays_exact(s, s2, removed, new, next);
}

proof fn lemma_full_times(s: StateView, s2: StateView, output: Seq<usize>, id: usize)
    requires
        s.levels.len() > 0,
        listed(s).no_duplicates(),
        s2.l0 == ids::without(s.l0, s.l0.to_set()),
        s2.levels == s.levels.update(0, (s.levels[0].0, output)),
    ensures
        times(listed(s2), id) + times(s.l0 + s.levels[0].1, id) == times(listed(s), id) + times(
            output,
            id,
        ),
        times(s.l0 + s.levels[0].1, id) <= times(listed(s), id),
{
    lemma_lists_once(s);
    lemma_listed(s, id);
    lemma_listed(s2, id);
    lemma_times_concat(s.l0, s.levels[0].1, id);
    lemma_times_taken(s.l0, s.l0, id);
    lemma_files_update(s.levels, 0, (s.levels[0].0, output), id);
    lemma_level_times(s.levels, 0, id);
}

/// Where the numbers of the tiers are below those of new tables, tiers have different numbers again
/// after a compaction.
pub proof fn lemma_installed_distinct(
    o: TieredCompactionOptions,
    s: StateView,
    out: Output,
    next: usize,
)
    requires
        s.levels.len() > 0,
        tiered::tiered_task(s, o) is Some,
        tiered::distinct(s.levels),
        forall|i: int| 0 <= i < s.levels.len() ==> (#[trigger] s.levels[i]).0 < next,
        next + out.tables.len() <= usize::MAX,
    ensures
        ({
            let s2 = compact::installed(
                s,
                TaskView::Tiered(tiered::tiered_task(s, o)->0),
                compact::tables_from(out, next as int),
            );
            &&& tiered::distinct(s2.levels)
            &&& forall|i: int|
                0 <= i < s2.levels.len() ==> (#[trigger] s2.levels[i]).0 < next + out.tables.len()
        }),
{
    let t = tiered::tiered_task(s, o)->0;
    let new = compact::tables_from(out, next as int);
    let output = compact::ids_of(new);
    let s2 = compact::installed(s, TaskView::Tiered(t), new);
    let no_tiers = Seq::<(usize, Seq<usize>)>::empty();
    let tier = tiered::output_tier(output);
    tiered::lemma_tiered_task(s, o);
    let n = t.tiers.len() as int;
    assert(output.len() > 0 ==> output[0] == next);
    if n > 0 {
        let rest = s.levels.skip(n);
        assert(no_tiers + t.tiers + rest =~= s.levels);
        tiered::lemma_tiered_applied(no_tiers, t.tiers, rest, output);
        assert(s2.levels =~= tier + rest);
    } else {
        let rest = s.levels.drop_first();
        assert(tiered::tier_ids(t.tiers) =~= Set::empty());
        assert(Set::<usize>::empty().remove(s.levels[0].0) =~= Set::empty());
        tiered::lemma_replaced_none(rest, output);
        assert(s2.levels =~= seq![s.levels[0]] + tier + rest);
    }
}

} // verus!
