//! Compaction of tiers.

use vstd::prelude::*;

use super::ids;
use crate::lsm_storage;
use crate::lsm_storage::{LsmStorageState, StateView};

verus! {

/// The mathematical value of a task.
#[verifier::ext_equal]
pub struct TierTaskView {
    pub tiers: Seq<(usize, Seq<usize>)>,
    pub bottom_included: bool,
}

/// A task that merges tiers.
#[derive(Debug, PartialEq, Eq)]
pub struct TieredCompactionTask {
    pub tiers: Vec<(usize, Vec<usize>)>,
    pub bottom_tier_included: bool,
}

impl View for TieredCompactionTask {
    type V = TierTaskView;

    open spec fn view(&self) -> TierTaskView {
        TierTaskView {
            tiers: lsm_storage::levels_view(self.tiers@),
            bottom_included: self.bottom_tier_included,
        }
    }
}

/// When tiers are compacted.
#[derive(Debug, Clone, Copy)]
pub struct TieredCompactionOptions {
    pub num_tiers: usize,
    pub max_size_amplification_percent: usize,
    pub size_ratio: usize,
    pub min_merge_width: usize,
    pub max_merge_width: Option<usize>,
}

/// The number of tables of tiers.
pub open spec fn tier_sum(tiers: Seq<(usize, Seq<usize>)>) -> nat
    decreases tiers.len(),
{
    if tiers.len() == 0 {
        0
    } else {
        tier_sum(tiers.drop_last()) + tiers.last().1.len()
    }
}

/// The tiers above the last one have at least the given percentage of its tables.
pub open spec fn amplified(tiers: Seq<(usize, Seq<usize>)>, o: TieredCompactionOptions) -> bool {
    let last = tiers.last().1.len();
    last > 0 && tier_sum(tiers.drop_last()) * 100 >= o.max_size_amplification_percent * last
}

/// Tier `i + 1` has more tables than the tiers up to tier `i` together by more than the size
/// ratio, and those tiers are enough to be merged.
pub open spec fn outgrown(
    tiers: Seq<(usize, Seq<usize>)>,
    o: TieredCompactionOptions,
    i: int,
) -> bool {
    &&& tiers[i + 1].1.len() * 100 > (100 + o.size_ratio) * tier_sum(tiers.take(i + 1))
    &&& i + 1 >= o.min_merge_width
}

/// The number of tiers that are merged to reduce the number of tiers.
pub open spec fn merge_width(o: TieredCompactionOptions) -> int {
    let most = match o.max_merge_width {
        Some(w) => w as int,
        None => o.num_tiers as int,
    };
    if o.num_tiers < most {
        o.num_tiers as int
    } else {
        most
    }
}

/// The task for the first outgrown tiers from tier `i` on, and otherwise for as many tiers as are
/// merged at once.
pub open spec fn ratio_task(
    tiers: Seq<(usize, Seq<usize>)>,
    o: TieredCompactionOptions,
    i: int,
) -> TierTaskView
    decreases tiers.len() - i,
{
    if i >= tiers.len() - 1 {
        TierTaskView {
            tiers: tiers.take(merge_width(o)),
            bottom_included: tiers.len() <= merge_width(o),
        }
    } else if outgrown(tiers, o, i) {
        TierTaskView { tiers: tiers.take(i + 1), bottom_included: false }
    } else {
        ratio_task(tiers, o, i + 1)
    }
}

/// The task for a state: none while there are few tiers, all tiers where the upper ones take too
/// much space, otherwise the first tiers that the next one has outgrown, otherwise the first tiers.
pub open spec fn tiered_task(s: StateView, o: TieredCompactionOptions) -> Option<TierTaskView> {
    if s.levels.len() < o.num_tiers {
        None
    } else if amplified(s.levels, o) {
        Some(TierTaskView { tiers: s.levels, bottom_included: true })
    } else {
        Some(ratio_task(s.levels, o, 0))
    }
}

/// Tiers without those that a task names, and the new tier behind the last of these. The numbers
/// in `pending` are still to be found, and `placed` says that the new tier has its place.
pub open spec fn replaced(
    tiers: Seq<(usize, Seq<usize>)>,
    pending: Set<usize>,
    placed: bool,
    output: Seq<usize>,
) -> Seq<(usize, Seq<usize>)>
    decreases tiers.len(),
{
    if tiers.len() == 0 {
        Seq::empty()
    } else {
        let id = tiers[0].0;
        let left = pending.remove(id);
        let kept = if pending.contains(id) {
            Seq::empty()
        } else {
            seq![tiers[0]]
        };
        let place = left =~= Set::empty() && !placed;
        let new = if place && output.len() > 0 {
            seq![(output[0], output)]
        } else {
            Seq::empty()
        };
        kept + new + replaced(tiers.drop_first(), left, placed || place, output)
    }
}

/// The tables of the tiers whose numbers are pending, where each number counts once.
pub open spec fn replaced_files(tiers: Seq<(usize, Seq<usize>)>, pending: Set<usize>) -> Seq<usize>
    decreases tiers.len(),
{
    if tiers.len() == 0 {
        Seq::empty()
    } else if pending.contains(tiers[0].0) {
        tiers[0].1 + replaced_files(tiers.drop_first(), pending.remove(tiers[0].0))
    } else {
        replaced_files(tiers.drop_first(), pending)
    }
}

/// The numbers of tiers.
pub open spec fn tier_ids(tiers: Seq<(usize, Seq<usize>)>) -> Set<usize> {
    Seq::new(tiers.len(), |i: int| tiers[i].0).to_set()
}

/// There is no L0, and each tier of the task is the first tier of the state with its number. Where
/// the task names a number twice, its last tier with that number counts.
pub open spec fn tiered_applies(s: StateView, t: TierTaskView) -> bool {
    &&& s.l0.len() == 0
    &&& forall|i: int|
        0 <= i < t.tiers.len() && !repeated(t.tiers, i) ==> tier_found(
            s.levels,
            #[trigger] t.tiers[i],
        )
}

/// A later tier has the number of tier `i`.
pub open spec fn repeated(tiers: Seq<(usize, Seq<usize>)>, i: int) -> bool {
    exists|j: int| i < j < tiers.len() && (#[trigger] tiers[j]).0 == tiers[i].0
}

/// The first of the tiers with the number of `tier` is `tier`.
pub open spec fn tier_found(tiers: Seq<(usize, Seq<usize>)>, tier: (usize, Seq<usize>)) -> bool {
    exists|j: int| #[trigger] first_tier_at(tiers, tier, j)
}

pub open spec fn first_tier_at(
    tiers: Seq<(usize, Seq<usize>)>,
    tier: (usize, Seq<usize>),
    j: int,
) -> bool {
    &&& 0 <= j < tiers.len()
    &&& tiers[j] == tier
    &&& forall|h: int| 0 <= h < j ==> (#[trigger] tiers[h]).0 != tier.0
}

/// The state in which the tiers of a task are replaced by its output.
pub open spec fn tiered_applied(s: StateView, t: TierTaskView, output: Seq<usize>) -> StateView {
    StateView { levels: replaced(s.levels, tier_ids(t.tiers), false, output), ..s }
}

/// No two tiers have one number.
pub open spec fn distinct(tiers: Seq<(usize, Seq<usize>)>) -> bool {
    forall|i: int, j: int|
        0 <= i < j < tiers.len() ==> (#[trigger] tiers[i]).0 != (#[trigger] tiers[j]).0
}

proof fn lemma_tier_ids(tiers: Seq<(usize, Seq<usize>)>, id: usize)
    ensures
        tier_ids(tiers).contains(id) <==> exists|i: int|
            0 <= i < tiers.len() && (#[trigger] tiers[i]).0 == id,
{
    let numbers = Seq::new(tiers.len(), |i: int| tiers[i].0);
    if tier_ids(tiers).contains(id) {
        let i = choose|i: int| 0 <= i < numbers.len() && numbers[i] == id;
        assert(tiers[i].0 == id);
    }
    if exists|i: int| 0 <= i < tiers.len() && (#[trigger] tiers[i]).0 == id {
        let i = choose|i: int| 0 <= i < tiers.len() && (#[trigger] tiers[i]).0 == id;
        assert(numbers[i] == id);
    }
}

proof fn lemma_tier_ids_rest(tiers: Seq<(usize, Seq<usize>)>)
    requires
        distinct(tiers),
        tiers.len() > 0,
    ensures
        tier_ids(tiers).contains(tiers[0].0),
        tier_ids(tiers).remove(tiers[0].0) == tier_ids(tiers.drop_first()),
        distinct(tiers.drop_first()),
{
    let rest = tiers.drop_first();
    lemma_tier_ids(tiers, tiers[0].0);
    assert forall|id: usize|
        tier_ids(tiers).remove(tiers[0].0).contains(id) <==> tier_ids(rest).contains(id) by {
        lemma_tier_ids(tiers, id);
        lemma_tier_ids(rest, id);
        if tier_ids(tiers).remove(tiers[0].0).contains(id) {
            let i = choose|i: int| 0 <= i < tiers.len() && (#[trigger] tiers[i]).0 == id;
            assert(rest[i - 1].0 == id);
        }
        if tier_ids(rest).contains(id) {
            let i = choose|i: int| 0 <= i < rest.len() && (#[trigger] rest[i]).0 == id;
            assert(tiers[i + 1].0 == id);
        }
    }
    assert(tier_ids(tiers).remove(tiers[0].0) =~= tier_ids(rest));
    assert forall|i: int, j: int| 0 <= i < j < rest.len() implies (#[trigger] rest[i]).0 != (
    #[trigger] rest[j]).0 by {
        assert(rest[i] == tiers[i + 1] && rest[j] == tiers[j + 1]);
    }
}

pub(crate) proof fn lemma_replaced_none(tiers: Seq<(usize, Seq<usize>)>, output: Seq<usize>)
    ensures
        replaced(tiers, Set::empty(), true, output) == tiers,
        replaced_files(tiers, Set::empty()) == Seq::<usize>::empty(),
    decreases tiers.len(),
{
    if tiers.len() > 0 {
        lemma_replaced_none(tiers.drop_first(), output);
        assert(Set::<usize>::empty().remove(tiers[0].0) =~= Set::empty());
        assert(replaced(tiers, Set::empty(), true, output) =~= seq![tiers[0]]
            + tiers.drop_first());
        assert(seq![tiers[0]] + tiers.drop_first() =~= tiers);
    } else {
        assert(replaced(tiers, Set::empty(), true, output) =~= tiers);
    }
}

/// The tables of tiers, one tier behind the other.
pub open spec fn tier_files(tiers: Seq<(usize, Seq<usize>)>) -> Seq<usize>
    decreases tiers.len(),
{
    if tiers.len() == 0 {
        Seq::empty()
    } else {
        tiers[0].1 + tier_files(tiers.drop_first())
    }
}

/// The tier that holds an output, if there is any.
pub open spec fn output_tier(output: Seq<usize>) -> Seq<(usize, Seq<usize>)> {
    if output.len() > 0 {
        seq![(output[0], output)]
    } else {
        Seq::empty()
    }
}

proof fn lemma_replaced_prefix(
    taken: Seq<(usize, Seq<usize>)>,
    rest: Seq<(usize, Seq<usize>)>,
    output: Seq<usize>,
)
    requires
        taken.len() > 0,
        distinct(taken),
    ensures
        replaced(taken + rest, tier_ids(taken), false, output) == output_tier(output) + rest,
        replaced_files(taken + rest, tier_ids(taken)) == tier_files(taken),
    decreases taken.len(),
{
    let all = taken + rest;
    let more = taken.drop_first();
    lemma_tier_ids_rest(taken);
    assert(all.drop_first() =~= more + rest);
    assert(all[0] == taken[0]);
    let left = tier_ids(taken).remove(taken[0].0);
    if more.len() == 0 {
        assert(left =~= Set::empty());
        lemma_replaced_none(rest, output);
        assert(more + rest =~= rest);
        assert(tier_files(more) =~= Seq::empty());
        assert(replaced(all, tier_ids(taken), false, output) =~= output_tier(output) + rest);
    } else {
        assert(left.contains(more[0].0)) by {
            lemma_tier_ids(more, more[0].0);
        }
        lemma_replaced_prefix(more, rest, output);
        assert(replaced(all, tier_ids(taken), false, output) =~= replaced(
            more + rest,
            left,
            false,
            output,
        ));
    }
}

/// Applying a task replaces its tiers, which stand together, by one tier. Tiers that were flushed
/// meanwhile stay in front and older tiers stay behind.
pub proof fn lemma_tiered_applied(
    flushed: Seq<(usize, Seq<usize>)>,
    taken: Seq<(usize, Seq<usize>)>,
    rest: Seq<(usize, Seq<usize>)>,
    output: Seq<usize>,
)
    requires
        distinct(flushed + taken + rest),
        taken.len() > 0,
    ensures
        replaced(flushed + taken + rest, tier_ids(taken), false, output) == flushed + output_tier(
            output,
        ) + rest,
        replaced_files(flushed + taken + rest, tier_ids(taken)) == tier_files(taken),
    decreases flushed.len(),
{
    let all = flushed + taken + rest;
    assert forall|i: int, j: int| 0 <= i < j < taken.len() implies (#[trigger] taken[i]).0 != (
    #[trigger] taken[j]).0 by {
        assert(all[flushed.len() + i] == taken[i] && all[flushed.len() + j] == taken[j]);
    }
    if flushed.len() == 0 {
        assert(all =~= taken + rest);
        lemma_replaced_prefix(taken, rest, output);
        assert(flushed + output_tier(output) + rest =~= output_tier(output) + rest);
    } else {
        let more = flushed.drop_first();
        assert(all.drop_first() =~= more + taken + rest);
        assert(all[0] == flushed[0]);
        assert(distinct(more + taken + rest)) by {
            let tail = more + taken + rest;
            assert forall|i: int, j: int| 0 <= i < j < tail.len() implies (#[trigger] tail[i]).0
                != (#[trigger] tail[j]).0 by {
                assert(tail[i] == all[i + 1] && tail[j] == all[j + 1]);
            }
        }
        lemma_tiered_applied(more, taken, rest, output);
        lemma_tier_ids(taken, flushed[0].0);
        assert(!tier_ids(taken).contains(flushed[0].0)) by {
            if tier_ids(taken).contains(flushed[0].0) {
                let i = choose|i: int|
                    0 <= i < taken.len() && (#[trigger] taken[i]).0 == flushed[0].0;
                assert(all[flushed.len() + i] == taken[i]);
            }
        }
        let left = tier_ids(taken).remove(flushed[0].0);
        assert(left =~= tier_ids(taken));
        assert(left.contains(taken[0].0)) by {
            lemma_tier_ids(taken, taken[0].0);
        }
        assert(!(left =~= Set::empty()));
        assert(replaced(all, tier_ids(taken), false, output) =~= seq![flushed[0]] + replaced(
            more + taken + rest,
            tier_ids(taken),
            false,
            output,
        ));
        assert(seq![flushed[0]] + (more + output_tier(output) + rest) =~= flushed + output_tier(
            output,
        ) + rest);
    }
}

/// A generated task takes the newest tiers, and its tiers are all tiers exactly where it says that
/// the last one is among them.
pub proof fn lemma_tiered_task(s: StateView, o: TieredCompactionOptions)
    requires
        s.levels.len() > 0,
        tiered_task(s, o) is Some,
    ensures
        ({
            let t = tiered_task(s, o)->0;
            &&& t.tiers.len() <= s.levels.len()
            &&& t.tiers == s.levels.take(t.tiers.len() as int)
            &&& t.bottom_included == (t.tiers.len() == s.levels.len())
        }),
{
    if amplified(s.levels, o) {
        assert(s.levels.take(s.levels.len() as int) =~= s.levels);
    } else {
        lemma_ratio_task(s.levels, o, 0);
    }
}

/// All tables of the tiers, one tier after the other.
pub open spec fn tables_in(tiers: Seq<(usize, Seq<usize>)>) -> Seq<usize> {
    tiers.map_values(|tier: (usize, Seq<usize>)| tier.1).flatten()
}

/// The size of tiers together is the number of all their tables.
pub proof fn lemma_tier_sum(tiers: Seq<(usize, Seq<usize>)>)
    ensures
        tier_sum(tiers) == tables_in(tiers).len(),
    decreases tiers.len(),
{
    let lists = tiers.map_values(|tier: (usize, Seq<usize>)| tier.1);
    if tiers.len() > 0 {
        lemma_tier_sum(tiers.drop_last());
        assert(lists =~= tiers.drop_last().map_values(
            |tier: (usize, Seq<usize>)| tier.1,
        ).push(tiers.last().1));
        tiers.drop_last().map_values(|tier: (usize, Seq<usize>)| tier.1).lemma_flatten_push(
            tiers.last().1,
        );
    }
}

/// The tables of tiers stand one tier after the other.
pub proof fn lemma_tier_files(tiers: Seq<(usize, Seq<usize>)>)
    ensures
        tier_files(tiers) == tables_in(tiers),
    decreases tiers.len(),
{
    let lists = tiers.map_values(|tier: (usize, Seq<usize>)| tier.1);
    if tiers.len() > 0 {
        lemma_tier_files(tiers.drop_first());
        assert(lists.drop_first() =~= tiers.drop_first().map_values(
            |tier: (usize, Seq<usize>)| tier.1,
        ));
    }
}

/// Tier `n` has more than the given percentage above the number of tables that the tiers before it
/// have together, and enough tiers are before it.
spec fn much_larger(tiers: Seq<(usize, Seq<usize>)>, o: TieredCompactionOptions, n: int) -> bool {
    n >= o.min_merge_width && tiers[n].1.len() * 100 > (100 + o.size_ratio) * tables_in(
        tiers.take(n),
    ).len()
}

proof fn lemma_ratio_exactly(tiers: Seq<(usize, Seq<usize>)>, o: TieredCompactionOptions, i: int)
    requires
        i >= 0,
        tiers.len() >= o.num_tiers,
        tiers.len() > 0,
    ensures
        ({
            let t = ratio_task(tiers, o, i);
            let n = t.tiers.len() as int;
            ||| {
                &&& i < n < tiers.len()
                &&& much_larger(tiers, o, n)
                &&& forall|m: int| i < m < n ==> !#[trigger] much_larger(tiers, o, m)
                &&& t.tiers == tiers.take(n)
                &&& !t.bottom_included
            }
            ||| {
                &&& forall|m: int| i < m < tiers.len() ==> !#[trigger] much_larger(tiers, o, m)
                &&& n == match o.max_merge_width {
                    Some(w) => if w < o.num_tiers {
                        w as int
                    } else {
                        o.num_tiers as int
                    },
                    None => o.num_tiers as int,
                }
                &&& t.tiers == tiers.take(n)
                &&& t.bottom_included == (tiers.len() <= n)
            }
        }),
    decreases tiers.len() - i,
{
    if i < tiers.len() - 1 {
        lemma_tier_sum(tiers.take(i + 1));
        if !much_larger(tiers, o, i + 1) {
            lemma_ratio_exactly(tiers, o, i + 1);
        }
    }
}

/// Nothing is to be done exactly if there are fewer tiers than the options allow.
pub proof fn lemma_tiered_idle(s: StateView, o: TieredCompactionOptions)
    ensures
        tiered_task(s, o) is None <==> s.levels.len() < o.num_tiers,
{
}

/// Where the tiers before the last one have together at least the given percentage of the last
/// one's tables, all tiers are compacted.
pub proof fn lemma_tiered_space(s: StateView, o: TieredCompactionOptions)
    requires
        s.levels.len() >= o.num_tiers,
        s.levels.len() > 0,
        s.levels.last().1.len() > 0,
        tables_in(s.levels.drop_last()).len() * 100 >= o.max_size_amplification_percent
            * s.levels.last().1.len(),
    ensures
        tiered_task(s, o) matches Some(t) && t.tiers == s.levels && t.bottom_included,
{
    lemma_tier_sum(s.levels.drop_last());
}

/// Otherwise, where some tier with enough tiers before it has more tables than the given percentage
/// above what all tiers before it have together, the task takes the tiers before the first such one.
pub proof fn lemma_tiered_ratio(s: StateView, o: TieredCompactionOptions, n: int)
    requires
        s.levels.len() >= o.num_tiers,
        s.levels.len() > 0,
        s.levels.last().1.len() == 0 || tables_in(s.levels.drop_last()).len() * 100
            < o.max_size_amplification_percent * s.levels.last().1.len(),
        1 <= n < s.levels.len(),
        n >= o.min_merge_width,
        s.levels[n].1.len() * 100 > (100 + o.size_ratio) * tables_in(s.levels.take(n)).len(),
        forall|m: int|
            1 <= m < n && m >= o.min_merge_width ==> (#[trigger] s.levels[m]).1.len() * 100 <= (100
                + o.size_ratio) * tables_in(s.levels.take(m)).len(),
    ensures
        tiered_task(s, o) matches Some(t) && t.tiers == s.levels.take(n) && !t.bottom_included,
{
    lemma_tier_sum(s.levels.drop_last());
    lemma_ratio_exactly(s.levels, o, 0);
    assert(much_larger(s.levels, o, n));
    let t = tiered_task(s, o)->0;
    let m = t.tiers.len() as int;
    if 0 < m < n && much_larger(s.levels, o, m) {
        assert(s.levels[m].1.len() * 100 <= (100 + o.size_ratio) * tables_in(
            s.levels.take(m),
        ).len());
    }
}

/// Where neither applies, the task takes as many of the newest tiers as the options allow, up to the
/// widest merge, and the last tier is among them only if these are all.
pub proof fn lemma_tiered_reduce(s: StateView, o: TieredCompactionOptions)
    requires
        s.levels.len() >= o.num_tiers,
        s.levels.len() > 0,
        s.levels.last().1.len() == 0 || tables_in(s.levels.drop_last()).len() * 100
            < o.max_size_amplification_percent * s.levels.last().1.len(),
        forall|m: int|
            1 <= m < s.levels.len() && m >= o.min_merge_width ==> (#[trigger] s.levels[m]).1.len()
                * 100 <= (100 + o.size_ratio) * tables_in(s.levels.take(m)).len(),
    ensures
        ({
            let n = match o.max_merge_width {
                Some(w) => if w < o.num_tiers {
                    w as int
                } else {
                    o.num_tiers as int
                },
                None => o.num_tiers as int,
            };
            tiered_task(s, o) matches Some(t) && t.tiers == s.levels.take(n) && t.bottom_included
                == (n == s.levels.len())
        }),
{
    lemma_tier_sum(s.levels.drop_last());
    lemma_ratio_exactly(s.levels, o, 0);
    let t = tiered_task(s, o)->0;
    let m = t.tiers.len() as int;
    if 0 < m < s.levels.len() && much_larger(s.levels, o, m) {
        assert(s.levels[m].1.len() * 100 <= (100 + o.size_ratio) * tables_in(
            s.levels.take(m),
        ).len());
    }
}

/// A finished task puts its output, as one tier, in the place of the tiers that it took; the tiers
/// that came before them meanwhile and those behind them stay, and nothing else changes. An empty
/// output leaves no tier.
pub proof fn lemma_tiered_state(
    s: StateView,
    t: TierTaskView,
    flushed: Seq<(usize, Seq<usize>)>,
    rest: Seq<(usize, Seq<usize>)>,
    output: Seq<usize>,
)
    requires
        s.levels == flushed + t.tiers + rest,
        distinct(s.levels),
        t.tiers.len() > 0,
    ensures
        ({
            let r = tiered_applied(s, t, output);
            &&& r.l0 == s.l0
            &&& r.tables == s.tables
            &&& output.len() == 0 ==> r.levels == flushed + rest
            &&& output.len() > 0 ==> r.levels == flushed + seq![(output[0], output)] + rest
        }),
{
    lemma_tiered_applied(flushed, t.tiers, rest, output);
    if output.len() == 0 {
        assert(flushed + Seq::empty() + rest =~= flushed + rest);
    }
}

proof fn lemma_ratio_task(tiers: Seq<(usize, Seq<usize>)>, o: TieredCompactionOptions, i: int)
    requires
        0 <= i,
        tiers.len() > 0,
        tiers.len() >= o.num_tiers,
    ensures
        ({
            let t = ratio_task(tiers, o, i);
            &&& t.tiers.len() <= tiers.len()
            &&& t.tiers == tiers.take(t.tiers.len() as int)
            &&& t.bottom_included == (t.tiers.len() == tiers.len())
        }),
    decreases tiers.len() - i,
{
    if i < tiers.len() - 1 && !outgrown(tiers, o, i) {
        lemma_ratio_task(tiers, o, i + 1);
    }
}

/// A generated task applies to the state that it was generated from, also when more tiers were
/// flushed meanwhile.
pub proof fn lemma_tiered_task_applies(
    s: StateView,
    o: TieredCompactionOptions,
    flushed: Seq<(usize, Seq<usize>)>,
)
    requires
        s.l0.len() == 0,
        s.levels.len() > 0,
        tiered_task(s, o) is Some,
        distinct(flushed + s.levels),
    ensures
        tiered_applies(
            StateView { levels: flushed + s.levels, ..s },
            tiered_task(s, o)->0,
        ),
{
    lemma_tiered_task(s, o);
    let t = tiered_task(s, o)->0;
    let all = flushed + s.levels;
    assert forall|i: int| 0 <= i < t.tiers.len() && !repeated(t.tiers, i) implies tier_found(
        all,
        #[trigger] t.tiers[i],
    ) by {
        let j = flushed.len() + i;
        assert(all[j] == s.levels[i]);
        assert(first_tier_at(all, t.tiers[i], j));
    }
}

/// Compacts tiers.
pub struct TieredCompactionController {
    pub(crate) options: TieredCompactionOptions,
}

impl TieredCompactionController {
    /// The options.
    pub closed spec fn opts(&self) -> TieredCompactionOptions {
        self.options
    }

    /// A controller with the given options.
    pub fn new(options: TieredCompactionOptions) -> (r: Self)
        ensures
            r.opts() == options,
    {
        TieredCompactionController { options }
    }

    /// The options.
    pub fn options(&self) -> (r: TieredCompactionOptions)
        ensures
            r == self.opts(),
    {
        self.options
    }

    /// Whether a task can be chosen: there is no L0, there is a tier where tiers are compacted, and
    /// the number of tables can be represented.
    pub fn can_choose(&self, snapshot: &LsmStorageState) -> (r: bool)
        ensures
            r == (snapshot@.l0.len() == 0 && (snapshot@.levels.len() > 0 || self.opts().num_tiers
                > 0) && tier_sum(snapshot@.levels) <= usize::MAX),
    {
        if snapshot.l0_sstables.len() > 0 || (snapshot.levels.len() == 0 && self.options.num_tiers
            == 0) {
            return false;
        }
        let ghost tiers = snapshot@.levels;
        let mut sum: usize = 0;
        let mut i: usize = 0;
        assert(tiers.take(0) =~= Seq::empty());
        while i < snapshot.levels.len()
            invariant
                i <= tiers.len(),
                tiers == snapshot@.levels,
                sum == tier_sum(tiers.take(i as int)),
            decreases tiers.len() - i,
        {
            proof {
                assert(tiers.take(i + 1).drop_last() =~= tiers.take(i as int));
                assert(tiers[i as int].1 == snapshot.levels@[i as int].1@);
                lemma_tier_sum_take(tiers, i + 1);
            }
            if snapshot.levels[i].1.len() > usize::MAX - sum {
                return false;
            }
            sum += snapshot.levels[i].1.len();
            i += 1;
        }
        assert(tiers.take(i as int) =~= tiers);
        true
    }

    /// The task for a state, if there is anything to compact.
    pub fn generate_compaction_task(&self, snapshot: &LsmStorageState) -> (r: Option<
        TieredCompactionTask,
    >)
        requires
            snapshot@.l0.len() == 0,
            snapshot@.levels.len() > 0 || self.opts().num_tiers > 0,
            tier_sum(snapshot@.levels) <= usize::MAX,
        ensures
            match r {
                Some(t) => tiered_task(snapshot@, self.opts()) == Some(t@),
                None => tiered_task(snapshot@, self.opts()) is None,
            },
    {
        let ghost tiers = snapshot@.levels;
        let ghost o = self.options;
        let n: usize = snapshot.levels.len();
        if n < self.options.num_tiers {
            return None;
        }
        let upper: usize = sum_tiers(&snapshot.levels, n - 1);
        assert(tiers.take(n - 1) =~= tiers.drop_last());
        assert(tiers.last().1 == snapshot.levels@[n - 1].1@);
        let last: usize = snapshot.levels[n - 1].1.len();
        if last > 0 && !exceeds(
            last,
            self.options.max_size_amplification_percent,
            upper,
            100,
        ) {
            let all: Vec<(usize, Vec<usize>)> = ids::copy_levels(&snapshot.levels, n);
            assert(tiers.take(n as int) =~= tiers);
            assert(amplified(tiers, o)) by (nonlinear_arith)
                requires
                    last == tiers.last().1.len(),
                    last > 0,
                    upper == tier_sum(tiers.drop_last()),
                    !(last * o.max_size_amplification_percent > upper * 100),
                    amplified(tiers, o) == (tiers.last().1.len() > 0 && tier_sum(tiers.drop_last())
                        * 100 >= o.max_size_amplification_percent * tiers.last().1.len()),
            ;
            return Some(TieredCompactionTask { tiers: all, bottom_tier_included: true });
        }
        assert(!amplified(tiers, o)) by (nonlinear_arith)
            requires
                last == tiers.last().1.len(),
                upper == tier_sum(tiers.drop_last()),
                last > 0 ==> last * o.max_size_amplification_percent > upper * 100,
                amplified(tiers, o) == (tiers.last().1.len() > 0 && tier_sum(tiers.drop_last())
                    * 100 >= o.max_size_amplification_percent * tiers.last().1.len()),
        ;
        let mut cumulative: usize = 0;
        let mut i: usize = 0;
        assert(tiers.take(0) =~= Seq::empty());
        while i < n - 1
            invariant
                n == snapshot.levels@.len(),
                n >= 1,
                i <= n - 1,
                tiers == snapshot@.levels,
                o == self.options,
                tier_sum(tiers) <= usize::MAX,
                tiered_task(snapshot@, o) == Some(ratio_task(tiers, o, 0)),
                cumulative == tier_sum(tiers.take(i as int)),
                ratio_task(tiers, o, 0) == ratio_task(tiers, o, i as int),
            decreases n - i,
        {
            proof {
                assert(tiers.take(i + 1).drop_last() =~= tiers.take(i as int));
                assert(tiers[i as int].1 == snapshot.levels@[i as int].1@);
                assert(tiers[i + 1].1 == snapshot.levels@[i + 1].1@);
                lemma_tier_sum_take(tiers, i + 1);
            }
            cumulative += snapshot.levels[i].1.len();
            let next_size: usize = snapshot.levels[i + 1].1.len();
            let grown: bool = grown_past(next_size, cumulative, self.options.size_ratio);
            if grown && i + 1 >= self.options.min_merge_width {
                return Some(
                    TieredCompactionTask {
                        tiers: ids::copy_levels(&snapshot.levels, i + 1),
                        bottom_tier_included: false,
                    },
                );
            }
            i += 1;
        }
        let mut width: usize = self.options.num_tiers;
        if let Some(w) = self.options.max_merge_width {
            if w < width {
                width = w;
            }
        }
        assert(width == merge_width(o));
        Some(
            TieredCompactionTask {
                tiers: ids::copy_levels(&snapshot.levels, width),
                bottom_tier_included: n <= width,
            },
        )
    }

    /// The state in which the tiers of a task are replaced by its output, and the tables that are
    /// no longer needed.
    pub fn apply_compaction_result(
        &self,
        snapshot: &LsmStorageState,
        task: &TieredCompactionTask,
        output: &[usize],
    ) -> (r: (LsmStorageState, Vec<usize>))
        requires
            tiered_applies(snapshot@, task@),
        ensures
            r.0@ == tiered_applied(snapshot@, task@, output@),
            r.1@ == replaced_files(snapshot@.levels, tier_ids(task@.tiers)),
            snapshot.wf() ==> r.0.wf(),
    {
        broadcast use vstd::std_specs::hash::group_hash_axioms;

        let mut state = snapshot.snapshot();
        let mut pending: std::collections::HashSet<usize> = std::collections::HashSet::new();
        let mut i: usize = 0;
        let ghost wanted = Seq::new(task.tiers@.len(), |k: int| task.tiers@[k].0);
        while i < task.tiers.len()
            invariant
                i <= task.tiers@.len(),
                wanted == Seq::new(task.tiers@.len(), |k: int| task.tiers@[k].0),
                pending@ == wanted.take(i as int).to_set(),
            decreases task.tiers@.len() - i,
        {
            pending.insert(task.tiers[i].0);
            proof {
                ids::lemma_take_to_set(wanted, i as int);
            }
            i += 1;
        }
        assert(wanted.take(i as int) =~= wanted);
        assert(wanted =~= Seq::new(task@.tiers.len(), |k: int| task@.tiers[k].0));
        let ghost tiers = snapshot@.levels;
        let ghost start = pending@;
        let ghost goal = replaced(tiers, start, false, output@);
        let ghost goal_files = replaced_files(tiers, start);
        let mut levels: Vec<(usize, Vec<usize>)> = Vec::new();
        let mut files_to_remove: Vec<usize> = Vec::new();
        let mut placed: bool = false;
        i = 0;
        proof {
            vstd::seq_lib::seq_to_set_is_finite(wanted);
            assert(tiers.skip(0) =~= tiers);
            assert(lsm_storage::levels_view(levels@) + goal =~= goal);
            assert(files_to_remove@ + goal_files =~= goal_files);
        }
        while i < snapshot.levels.len()
            invariant
                i <= snapshot.levels@.len(),
                tiers == snapshot@.levels,
                pending@.finite(),
                goal == lsm_storage::levels_view(levels@) + replaced(
                    tiers.skip(i as int),
                    pending@,
                    placed,
                    output@,
                ),
                goal_files == files_to_remove@ + replaced_files(tiers.skip(i as int), pending@),
            decreases snapshot.levels@.len() - i,
        {
            let ghost rest = tiers.skip(i as int);
            let ghost before = pending@;
            let ghost kept_view = lsm_storage::levels_view(levels@);
            let ghost was_placed = placed;
            let ghost files_before = files_to_remove@;
            let ghost tail = tiers.skip(i + 1);
            let ghost tier = rest[0];
            proof {
                assert(rest.drop_first() =~= tail);
                assert(tier.0 == snapshot.levels@[i as int].0);
                assert(tier.1 == snapshot.levels@[i as int].1@);
            }
            let tier_id: usize = snapshot.levels[i].0;
            let found: bool = pending.remove(&tier_id);
            assert(pending@ =~= before.remove(tier_id));
            if found {
                ids::extend_ids(&mut files_to_remove, snapshot.levels[i].1.as_slice());
            } else {
                assert(pending@ =~= before);
                levels.push((tier_id, ids::copy_ids(&snapshot.levels[i].1)));
            }
            let ghost kept: Seq<(usize, Seq<usize>)> = if found {
                Seq::empty()
            } else {
                seq![tier]
            };
            assert(lsm_storage::levels_view(levels@) =~= kept_view + kept);
            let ghost mid = lsm_storage::levels_view(levels@);
            let place: bool = pending.len() == 0 && !placed;
            proof {
                vstd::set_lib::lemma_set_empty_equivalency_len(pending@);
                assert(place == (pending@ =~= Set::empty() && !was_placed));
            }
            if place {
                placed = true;
                if output.len() > 0 {
                    let mut new_tier: Vec<usize> = Vec::new();
                    ids::extend_ids(&mut new_tier, output);
                    assert(new_tier@ =~= output@);
                    levels.push((output[0], new_tier));
                }
            }
            proof {
                let new: Seq<(usize, Seq<usize>)> = if place && output@.len() > 0 {
                    seq![(output@[0], output@)]
                } else {
                    Seq::empty()
                };
                assert(lsm_storage::levels_view(levels@) =~= mid + new);
                let more = replaced(tail, pending@, placed, output@);
                assert(replaced(rest, before, was_placed, output@) == kept + new + more);
                assert(kept_view + (kept + new + more) =~= lsm_storage::levels_view(levels@) + more);
                let more_files = replaced_files(tail, pending@);
                if found {
                    assert(files_before + (tier.1 + more_files) =~= files_to_remove@ + more_files);
                }
            }
            i += 1;
        }
        proof {
            assert(tiers.skip(i as int) =~= Seq::empty());
            assert(lsm_storage::levels_view(levels@) + Seq::empty() =~= lsm_storage::levels_view(
                levels@,
            ));
            assert(files_to_remove@ + Seq::empty() =~= files_to_remove@);
        }
        state.levels = levels;
        assert(state@ =~= tiered_applied(snapshot@, task@, output@));
        (state, files_to_remove)
    }
}

proof fn lemma_tier_sum_take(tiers: Seq<(usize, Seq<usize>)>, i: int)
    requires
        0 <= i <= tiers.len(),
    ensures
        tier_sum(tiers.take(i)) <= tier_sum(tiers),
    decreases tiers.len(),
{
    if i < tiers.len() {
        assert(tiers.drop_last().take(i) =~= tiers.take(i));
        lemma_tier_sum_take(tiers.drop_last(), i);
    } else {
        assert(tiers.take(i) =~= tiers);
    }
}

/// The number of tables of the first `n` tiers.
fn sum_tiers(levels: &Vec<(usize, Vec<usize>)>, n: usize) -> (r: usize)
    requires
        n <= levels@.len(),
        tier_sum(lsm_storage::levels_view(levels@)) <= usize::MAX,
    ensures
        r == tier_sum(lsm_storage::levels_view(levels@).take(n as int)),
{
    let ghost tiers = lsm_storage::levels_view(levels@);
    let mut sum: usize = 0;
    let mut i: usize = 0;
    assert(tiers.take(0) =~= Seq::empty());
    while i < n
        invariant
            i <= n <= levels@.len(),
            tiers == lsm_storage::levels_view(levels@),
            tier_sum(tiers) <= usize::MAX,
            sum == tier_sum(tiers.take(i as int)),
        decreases n - i,
    {
        proof {
            assert(tiers.take(i + 1).drop_last() =~= tiers.take(i as int));
            assert(tiers[i as int].1 == levels@[i as int].1@);
            lemma_tier_sum_take(tiers, i + 1);
        }
        sum += levels[i].1.len();
        i += 1;
    }
    sum
}

/// Whether `a * b` is more than `c * d`.
fn exceeds(a: usize, b: usize, c: usize, d: usize) -> (r: bool)
    ensures
        r == (a * b > c * d),
{
    proof {
        lemma_product_fits(a as int, b as int);
        lemma_product_fits(c as int, d as int);
    }
    (a as u128) * (b as u128) > (c as u128) * (d as u128)
}

/// Whether `next` is more than `so_far` by more than `ratio` percent.
fn grown_past(next: usize, so_far: usize, ratio: usize) -> (r: bool)
    ensures
        r == (next * 100 > (100 + ratio) * so_far),
{
    let left: u128 = (next as u128) * 100;
    proof {
        lemma_product_fits(ratio as int, so_far as int);
        assert((100 + ratio) * so_far == 100 * so_far + ratio * so_far) by (nonlinear_arith);
    }
    let extra: u128 = (ratio as u128) * (so_far as u128);
    let base: u128 = (so_far as u128) * 100;
    left > base && left - base > extra
}

proof fn lemma_product_fits(a: int, b: int)
    requires
        0 <= a <= 0xffff_ffff_ffff_ffff,
        0 <= b <= 0xffff_ffff_ffff_ffff,
    ensures
        0 <= a * b <= 0xffff_ffff_ffff_ffff * 0xffff_ffff_ffff_ffff,
{
    assert(0 <= a * b <= 0xffff_ffff_ffff_ffff * 0xffff_ffff_ffff_ffff) by (nonlinear_arith)
        requires
            0 <= a <= 0xffff_ffff_ffff_ffff,
            0 <= b <= 0xffff_ffff_ffff_ffff,
    ;
}

} // verus!
