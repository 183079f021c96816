//! The order of tables that compaction keeps: the tables of a level do not overlap and stand in key
//! order.

use vstd::prelude::*;

use super::gc;
use super::gc::{Output, Plan, Seen};
use super::ids;
use super::leveled;
use super::leveled::LeveledCompactionOptions;
use super::simple_leveled;
use super::simple_leveled::SimpleLeveledCompactionOptions;
use super::tiered;
use super::tiered::TieredCompactionOptions;
use super::{LevelTaskView, TaskView};
use crate::compact;
use crate::iterators::concat_iterator;
use crate::iterators::merge_iterator;
use crate::iterators::Stream;
use crate::key;
use crate::key::{Entry, Key};
use crate::lsm_storage::StateView;
use crate::table::builder;
use crate::table::builder::BuilderView;
use crate::table::iterator as table_iterator;
use crate::table::TableView;

verus! {

/// The entries of a table.
pub open spec fn entries(t: TableView) -> Seq<Entry> {
    t.tail(0).entries
}

/// The table can be read, its entries are sorted, and its first and last keys are those of its
/// first and last entries.
pub open spec fn sound_table(t: TableView) -> bool {
    &&& table_iterator::laid_out(t)
    &&& t.metas.len() > 0
    &&& entries(t).len() > 0
    &&& t.first_key == entries(t)[0].key
    &&& t.last_key == entries(t).last().key
}

/// The tables have keys, and each ends before the next one begins.
pub open spec fn views_run(ts: Seq<TableView>) -> bool {
    &&& forall|i: int|
        0 <= i < ts.len() ==> key::key_le((#[trigger] ts[i]).first_key, ts[i].last_key)
    &&& forall|i: int, j: int|
        0 <= i < j < ts.len() ==> key::key_lt(
            (#[trigger] ts[i]).last_key,
            (#[trigger] ts[j]).first_key,
        )
}

/// The keys of sorted entries lie between the first and the last one.
proof fn lemma_sorted_between(es: Seq<Entry>, i: int)
    requires
        key::sorted(es),
        0 <= i < es.len(),
    ensures
        key::key_le(es[0].key, es[i].key),
        key::key_le(es[i].key, es.last().key),
{
    if i > 0 {
        assert(key::key_lt(es[0].key, es[i].key));
    }
    if i < es.len() - 1 {
        assert(key::key_lt(es[i].key, es[es.len() - 1].key));
    }
}

proof fn lemma_flat_ends(cs: Seq<Seq<Entry>>)
    requires
        builder::good_chunks(cs),
        cs.len() > 0,
    ensures
        builder::flat(cs).len() > 0,
        builder::flat(cs)[0] == cs[0][0],
        builder::flat(cs).last() == cs.last().last(),
{
    builder::lemma_flat_first(cs);
    assert(builder::good_chunk(cs[0]));
    assert(builder::good_chunk(cs[cs.len() - 1]));
}

/// A built table of sorted entries is sound.
pub proof fn lemma_built_sound(id: usize, cs: Seq<Seq<Entry>>)
    requires
        builder::good_chunks(cs),
        builder::chunks_bytes(cs).len() <= 0xffff_ffff,
        key::sorted(builder::flat(cs)),
        cs.len() > 0,
    ensures
        sound_table(builder::built(id, cs)),
        entries(builder::built(id, cs)) == builder::flat(cs),
{
    table_iterator::lemma_built_laid_out(id, cs);
    lemma_flat_ends(cs);
}

proof fn lemma_entries_split(ts: Seq<Seq<Seq<Entry>>>, i: int)
    requires
        0 <= i <= ts.len(),
    ensures
        gc::entries_of(ts) == gc::entries_of(ts.take(i)) + gc::entries_of(ts.skip(i)),
    decreases i,
{
    if i == 0 {
        assert(ts.skip(0) =~= ts);
        assert(ts.take(0) =~= Seq::empty());
        assert(gc::entries_of(ts.take(0)) + gc::entries_of(ts.skip(0)) =~= gc::entries_of(ts));
    } else {
        let rest = ts.skip(1);
        lemma_entries_split(rest, i - 1);
        assert(rest.take(i - 1) =~= ts.take(i).skip(1));
        assert(rest.skip(i - 1) =~= ts.skip(i));
        assert(ts.take(i)[0] == ts[0]);
        assert(gc::entries_of(ts.take(i)) + gc::entries_of(ts.skip(i)) =~= gc::entries_of(ts));
    }
}

/// Where entry `a` of table `i` stands among the entries of all tables.
spec fn place(ts: Seq<Seq<Seq<Entry>>>, i: int, a: int) -> int {
    gc::entries_of(ts.take(i)).len() + a
}

proof fn lemma_place(ts: Seq<Seq<Seq<Entry>>>, i: int, a: int)
    requires
        0 <= i < ts.len(),
        0 <= a < builder::flat(ts[i]).len(),
    ensures
        0 <= place(ts, i, a) < gc::entries_of(ts).len(),
        gc::entries_of(ts)[place(ts, i, a)] == builder::flat(ts[i])[a],
        place(ts, i, a) < gc::entries_of(ts.take(i + 1)).len(),
{
    lemma_entries_split(ts, i);
    assert(ts.skip(i)[0] == ts[i]);
    lemma_entries_split(ts.take(i + 1), i);
    assert(ts.take(i + 1).take(i) =~= ts.take(i));
    let one = ts.take(i + 1).skip(i);
    assert(one[0] == ts[i]);
    assert(one.skip(1) =~= Seq::empty());
    assert(gc::entries_of(one) =~= builder::flat(ts[i]) + gc::entries_of(one.skip(1)));
}

proof fn lemma_place_ordered(ts: Seq<Seq<Seq<Entry>>>, i: int, j: int)
    requires
        0 <= i <= j <= ts.len(),
    ensures
        gc::entries_of(ts.take(i)).len() <= gc::entries_of(ts.take(j)).len(),
{
    lemma_entries_split(ts.take(j), i);
    assert(ts.take(j).take(i) =~= ts.take(i));
}

proof fn lemma_tables_sorted(ts: Seq<Seq<Seq<Entry>>>)
    requires
        key::sorted(gc::entries_of(ts)),
    ensures
        forall|i: int| 0 <= i < ts.len() ==> key::sorted(builder::flat(#[trigger] ts[i])),
        forall|i: int, j: int, a: int, b: int|
            0 <= i < j < ts.len() && 0 <= a < builder::flat(ts[i]).len() && 0 <= b < builder::flat(
                ts[j],
            ).len() ==> key::key_lt(
                (#[trigger] builder::flat(ts[i])[a]).key,
                (#[trigger] builder::flat(ts[j])[b]).key,
            ),
{
    let all = gc::entries_of(ts);
    assert forall|i: int| 0 <= i < ts.len() implies key::sorted(
        builder::flat(#[trigger] ts[i]),
    ) by {
        let f = builder::flat(ts[i]);
        assert forall|a: int, b: int| 0 <= a < b < f.len() implies key::key_lt(
            #[trigger] f[a].key,
            #[trigger] f[b].key,
        ) by {
            lemma_place(ts, i, a);
            lemma_place(ts, i, b);
            assert(key::key_lt(all[place(ts, i, a)].key, all[place(ts, i, b)].key));
        }
    }
    assert forall|i: int, j: int, a: int, b: int|
        0 <= i < j < ts.len() && 0 <= a < builder::flat(ts[i]).len() && 0 <= b < builder::flat(
            ts[j],
        ).len() implies key::key_lt(
        (#[trigger] builder::flat(ts[i])[a]).key,
        (#[trigger] builder::flat(ts[j])[b]).key,
    ) by {
        lemma_place(ts, i, a);
        lemma_place(ts, j, b);
        lemma_place_ordered(ts, i + 1, j);
        assert(key::key_lt(all[place(ts, i, a)].key, all[place(ts, j, b)].key));
    }
}

/// A compaction writes no empty table.
proof fn lemma_run_no_empty(p: Plan, s: Stream, seen: Seen, b: BuilderView)
    ensures
        forall|i: int|
            0 <= i < p.run(s, seen, b).tables.len() ==> builder::flat(
                #[trigger] p.run(s, seen, b).tables[i],
            ).len() > 0,
    decreases s.entries.len(),
{
    let out = p.run(s, seen, b);
    if s.entries.len() == 0 {
        builder::lemma_chunks_all(b);
    } else {
        let e = s.entries[0];
        let fed = p.fed(seen, b, e);
        let next = p.rules.after(seen, e);
        let rest = Stream { entries: s.entries.skip(1), fault: s.fault };
        let empty = BuilderView::empty(p.block_size);
        lemma_run_no_empty(p, rest, next, empty);
        lemma_run_no_empty(p, rest, next, fed);
        builder::lemma_chunks_all(fed);
        if !s.at_fault() && p.splits(fed, e.key.key, rest.entries) && fed.all().len() > 0 {
            let more = p.run(rest, next, empty);
            assert forall|i: int| 0 <= i < out.tables.len() implies builder::flat(
                #[trigger] out.tables[i],
            ).len() > 0 by {
                if i > 0 {
                    assert(out.tables[i] == more.tables[i - 1]);
                }
            }
        }
    }
}

/// The data blocks of the tables of an output can be read back.
pub open spec fn storable(out: Output) -> bool {
    forall|i: int| 0 <= i < out.tables.len() ==> #[trigger] storable_table(out.tables[i])
}

pub open spec fn storable_table(cs: Seq<Seq<Entry>>) -> bool {
    builder::good_chunks(cs) && builder::chunks_bytes(cs).len() <= 0xffff_ffff
}

/// The tables that a compaction of sorted entries writes are sound, stand in key order, and hold
/// only keys of the entries.
pub proof fn lemma_output_run(p: Plan, s: Stream, first: int)
    requires
        merge_iterator::sound_stream(s),
        storable(p.output(s)),
    ensures
        views_run(compact::tables_from(p.output(s), first)),
        forall|i: int|
            0 <= i < p.output(s).tables.len() ==> {
                let t = #[trigger] compact::tables_from(p.output(s), first)[i];
                &&& sound_table(t)
                &&& entries(t) == builder::flat(p.output(s).tables[i])
                &&& exists|x: Entry| s.entries.contains(x) && #[trigger] x.key == t.first_key
                &&& exists|x: Entry| s.entries.contains(x) && #[trigger] x.key == t.last_key
            },
{
    reveal(Plan::output);
    let out = p.output(s);
    let cs = out.tables;
    let ts = compact::tables_from(out, first);
    let seen = Seen::nothing();
    let b = BuilderView::empty(p.block_size);
    gc::lemma_run_entries(p, s, seen, b);
    assert(b.all() =~= Seq::empty());
    let kept = p.rules.kept(s.entries, seen);
    assert(gc::entries_of(cs) =~= kept);
    gc::lemma_kept_sorted(p.rules, s.entries, seen);
    lemma_tables_sorted(cs);
    lemma_run_no_empty(p, s, seen, b);
    assert forall|i: int| 0 <= i < cs.len() implies {
        let t = #[trigger] ts[i];
        &&& sound_table(t)
        &&& entries(t) == builder::flat(cs[i])
        &&& exists|x: Entry| s.entries.contains(x) && #[trigger] x.key == t.first_key
        &&& exists|x: Entry| s.entries.contains(x) && #[trigger] x.key == t.last_key
    } by {
        let f = builder::flat(cs[i]);
        assert(f.len() > 0);
        assert(storable_table(cs[i]));
        assert(cs[i].len() > 0) by {
            if cs[i].len() == 0 {
                assert(f.len() == 0);
            }
        }
        lemma_built_sound((first + i) as usize, cs[i]);
        lemma_place(cs, i, 0);
        lemma_place(cs, i, f.len() - 1);
        assert(kept.contains(f[0]));
        assert(kept.contains(f[f.len() - 1]));
        assert(s.entries.contains(f[0]) && f[0].key == ts[i].first_key);
        assert(s.entries.contains(f.last()) && f.last().key == ts[i].last_key);
    }
    assert forall|i: int| 0 <= i < ts.len() implies key::key_le(
        (#[trigger] ts[i]).first_key,
        ts[i].last_key,
    ) by {
        let f = builder::flat(cs[i]);
        assert(key::sorted(builder::flat(cs[i])));
        lemma_sorted_between(f, f.len() - 1);
    }
    assert forall|i: int, j: int| 0 <= i < j < ts.len() implies key::key_lt(
        (#[trigger] ts[i]).last_key,
        (#[trigger] ts[j]).first_key,
    ) by {
        let f = builder::flat(cs[i]);
        let g = builder::flat(cs[j]);
        assert(key::key_lt(f[f.len() - 1].key, g[0].key));
    }
}

/// The tables that a compaction of sorted entries writes hand out exactly the entries that it
/// keeps.
pub proof fn lemma_output_read_back(p: Plan, s: Stream, first: int)
    requires
        merge_iterator::sound_stream(s),
        storable(p.output(s)),
    ensures
        concat_iterator::tables_from(compact::tables_from(p.output(s), first), 0) == (Stream {
            entries: p.rules.kept(s.entries, Seen::nothing()),
            fault: None,
        }),
{
    let out = p.output(s);
    let ts = compact::tables_from(out, first);
    lemma_output_run(p, s, first);
    assert forall|j: int| 0 <= j < ts.len() implies table_iterator::laid_out(#[trigger] ts[j])
        && ts[j].metas.len() > 0 by {
        assert(sound_table(ts[j]));
    }
    concat_iterator::lemma_run_stream(ts, 0);
    lemma_run_entries_of(ts, out.tables, 0);
    assert(out.tables.skip(0) =~= out.tables);
    let b = BuilderView::empty(p.block_size);
    reveal(Plan::output);
    gc::lemma_run_entries(p, s, Seen::nothing(), b);
    assert(b.all() =~= Seq::empty());
    assert(gc::entries_of(out.tables) =~= p.rules.kept(s.entries, Seen::nothing()));
}

proof fn lemma_run_entries_of(ts: Seq<TableView>, cs: Seq<Seq<Seq<Entry>>>, i: int)
    requires
        0 <= i <= ts.len(),
        ts.len() == cs.len(),
        forall|j: int| 0 <= j < ts.len() ==> entries(#[trigger] ts[j]) == builder::flat(cs[j]),
    ensures
        concat_iterator::run_entries(ts, i) == gc::entries_of(cs.skip(i)),
    decreases ts.len() - i,
{
    if i < ts.len() {
        lemma_run_entries_of(ts, cs, i + 1);
        assert(entries(ts[i]) == builder::flat(cs[i]));
        assert(cs.skip(i)[0] == cs[i]);
        assert(cs.skip(i).skip(1) =~= cs.skip(i + 1));
    } else {
        assert(cs.skip(i) =~= Seq::empty());
    }
}

/// No number is in both lists.
pub open spec fn disjoint(a: Seq<usize>, b: Seq<usize>) -> bool {
    forall|i: int| 0 <= i < a.len() ==> !b.contains(#[trigger] a[i])
}

/// The tables of a level are known, do not overlap, stand in key order and are not in L0.
pub open spec fn level_orderly(s: StateView, i: int) -> bool {
    &&& s.knows(s.levels[i].1)
    &&& leveled::is_run(s.tables, s.levels[i].1)
    &&& disjoint(s.levels[i].1, s.l0)
}

/// The tables are sound and have numbers before `next`, each stands in one place, and the tables of
/// a level do not overlap and stand in key order.
pub open spec fn orderly(s: StateView, next: int) -> bool {
    &&& forall|id: usize| #[trigger]
        s.tables.dom().contains(id) ==> id < next && sound_table(s.tables[id])
    &&& s.knows(s.l0)
    &&& s.l0.no_duplicates()
    &&& forall|i: int| 0 <= i < s.levels.len() ==> #[trigger] level_orderly(s, i)
    &&& forall|i: int, j: int|
        0 <= i < s.levels.len() && 0 <= j < s.levels.len() && i != j ==> disjoint(
            (#[trigger] s.levels[i]).1,
            (#[trigger] s.levels[j]).1,
        )
}

proof fn lemma_key_le_chain(a: Key, b: Key, c: Key)
    requires
        key::key_le(a, b),
        key::key_le(b, c),
    ensures
        key::key_le(a, c),
{
    if a != b && b != c {
        key::lemma_key_lt_transitive(a, b, c);
    }
}

pub(crate) proof fn lemma_run_member(ts: Seq<TableView>, i: int, x: Entry)
    requires
        0 <= i <= ts.len(),
        concat_iterator::run_entries(ts, i).contains(x),
    ensures
        exists|j: int| i <= j < ts.len() && entries(#[trigger] ts[j]).contains(x),
    decreases ts.len() - i,
{
    let all = concat_iterator::run_entries(ts, i);
    let a = choose|a: int| 0 <= a < all.len() && all[a] == x;
    if i < ts.len() {
        let es = entries(ts[i]);
        if a < es.len() {
            assert(es[a] == x);
            assert(entries(ts[i]).contains(x));
        } else {
            let rest = concat_iterator::run_entries(ts, i + 1);
            assert(rest[a - es.len()] == x);
            lemma_run_member(ts, i + 1, x);
        }
    }
}

proof fn lemma_run_sorted(ts: Seq<TableView>, i: int)
    requires
        0 <= i <= ts.len(),
        views_run(ts),
        forall|j: int| 0 <= j < ts.len() ==> sound_table(#[trigger] ts[j]),
    ensures
        key::sorted(concat_iterator::run_entries(ts, i)),
    decreases ts.len() - i,
{
    if i < ts.len() {
        lemma_run_sorted(ts, i + 1);
        let es = entries(ts[i]);
        let rest = concat_iterator::run_entries(ts, i + 1);
        let all = concat_iterator::run_entries(ts, i);
        assert(sound_table(ts[i]));
        assert forall|a: int, b: int| 0 <= a < b < all.len() implies key::key_lt(
            #[trigger] all[a].key,
            #[trigger] all[b].key,
        ) by {
            let n = es.len() as int;
            if b < n {
                assert(all[a] == es[a] && all[b] == es[b]);
            } else if a >= n {
                assert(all[a] == rest[a - n] && all[b] == rest[b - n]);
            } else {
                assert(all[a] == es[a] && all[b] == rest[b - n]);
                assert(rest.contains(rest[b - n]));
                lemma_run_member(ts, i + 1, rest[b - n]);
                let j = choose|j: int|
                    i + 1 <= j < ts.len() && entries(#[trigger] ts[j]).contains(rest[b - n]);
                assert(sound_table(ts[j]));
                let c = choose|c: int| 0 <= c < entries(ts[j]).len() && entries(ts[j])[c] == rest[b
                    - n];
                lemma_sorted_between(es, a);
                lemma_sorted_between(entries(ts[j]), c);
                assert(key::key_lt(ts[i].last_key, ts[j].first_key));
                leveled::lemma_le_lt(es[a].key, ts[i].last_key, ts[j].first_key);
                leveled::lemma_le_lt(es[a].key, ts[j].first_key, rest[b - n].key);
            }
        }
    }
}

/// The entry is one of a table in the list.
pub open spec fn from_tables(s: StateView, list: Seq<usize>, x: Entry) -> bool {
    exists|i: int| 0 <= i < list.len() && entries(s.tables[#[trigger] list[i]]).contains(x)
}

/// The tables of the list are sound.
pub open spec fn all_sound(s: StateView, list: Seq<usize>) -> bool {
    forall|i: int| 0 <= i < list.len() ==> sound_table(s.tables[#[trigger] list[i]])
}

pub(crate) proof fn lemma_joined_source(s: StateView, list: Seq<usize>)
    requires
        all_sound(s, list),
        leveled::is_run(s.tables, list),
    ensures
        compact::joined_tables(compact::tables_of(s, list)) matches Ok(a)
            && merge_iterator::sound_stream(a) && forall|x: Entry| #[trigger]
            a.entries.contains(x) ==> from_tables(s, list, x),
{
    reveal(compact::joined_tables);
    let ts = compact::tables_of(s, list);
    assert forall|j: int| 0 <= j < ts.len() implies sound_table(#[trigger] ts[j]) by {
        assert(sound_table(s.tables[list[j]]));
    }
    assert(views_run(ts)) by {
        assert forall|i: int| 0 <= i < ts.len() implies key::key_le(
            (#[trigger] ts[i]).first_key,
            ts[i].last_key,
        ) by {
            assert(leveled::spans(s.tables, list[i]));
        }
        assert forall|i: int, j: int| 0 <= i < j < ts.len() implies key::key_lt(
            (#[trigger] ts[i]).last_key,
            (#[trigger] ts[j]).first_key,
        ) by {
            assert(leveled::ends_before(s.tables, list[i], list[j]));
        }
    }
    concat_iterator::lemma_run_stream(ts, 0);
    lemma_run_sorted(ts, 0);
    let es = concat_iterator::run_entries(ts, 0);
    assert forall|x: Entry| #[trigger] es.contains(x) implies from_tables(s, list, x) by {
        lemma_run_member(ts, 0, x);
        let j = choose|j: int| 0 <= j < ts.len() && entries(#[trigger] ts[j]).contains(x);
        assert(entries(s.tables[list[j]]).contains(x));
    }
}

pub(crate) proof fn lemma_no_first_fault(ss: Seq<Stream>)
    requires
        merge_iterator::sound(ss),
    ensures
        compact::first_fault(ss) is None,
    decreases ss.len(),
{
    reveal(compact::first_fault);
    if ss.len() > 0 {
        assert(merge_iterator::sound_stream(ss[0]));
        let rest = ss.skip(1);
        assert forall|i: int| 0 <= i < rest.len() implies #[trigger] merge_iterator::sound_stream(
            rest[i],
        ) by {
            assert(merge_iterator::sound_stream(ss[i + 1]));
        }
        lemma_no_first_fault(rest);
    }
}

pub(crate) proof fn lemma_merged_source(s: StateView, list: Seq<usize>)
    requires
        all_sound(s, list),
    ensures
        compact::merged_tables(compact::tables_of(s, list)) matches Ok(a)
            && merge_iterator::sound_stream(a) && forall|x: Entry| #[trigger]
            a.entries.contains(x) ==> from_tables(s, list, x),
{
    reveal(compact::merged_tables);
    reveal(compact::merged_source);
    let ts = compact::tables_of(s, list);
    let ss = compact::table_streams(ts);
    assert forall|i: int| 0 <= i < ss.len() implies #[trigger] merge_iterator::sound_stream(
        ss[i],
    ) && ss[i].entries == entries(ts[i]) by {
        assert(sound_table(s.tables[list[i]]));
        table_iterator::lemma_laid_out_stream(ts[i]);
    }
    lemma_no_first_fault(ss);
    merge_iterator::lemma_merged_sound(ss);
    let a = merge_iterator::merged(ss);
    assert forall|x: Entry| #[trigger] a.entries.contains(x) implies from_tables(s, list, x) by {
        let i = choose|i: int| merge_iterator::first_with(ss, x, i);
        assert(merge_iterator::sound_stream(ss[i]));
        assert(entries(s.tables[list[i]]).contains(x));
    }
}

pub(crate) proof fn lemma_pair_source(a: Stream, b: Stream, ss: Seq<Stream>)
    requires
        ss == seq![a, b],
        merge_iterator::sound_stream(a),
        merge_iterator::sound_stream(b),
    ensures
        merge_iterator::sound_stream(merge_iterator::merged(ss)),
        forall|x: Entry| #[trigger]
            merge_iterator::merged(ss).entries.contains(x) ==> a.entries.contains(x)
                || b.entries.contains(x),
{
    assert forall|i: int| 0 <= i < ss.len() implies #[trigger] merge_iterator::sound_stream(
        ss[i],
    ) by {}
    merge_iterator::lemma_merged_sound(ss);
    assert forall|x: Entry| #[trigger] merge_iterator::merged(ss).entries.contains(
        x,
    ) implies a.entries.contains(x) || b.entries.contains(x) by {
        let i = choose|i: int| merge_iterator::first_with(ss, x, i);
        assert(ss[i].entries.contains(x));
    }
}

proof fn lemma_from_either(s: StateView, a: Seq<usize>, b: Seq<usize>, x: Entry)
    requires
        from_tables(s, a, x) || from_tables(s, b, x),
    ensures
        from_tables(s, a + b, x),
{
    let all = a + b;
    if from_tables(s, a, x) {
        let i = choose|i: int| 0 <= i < a.len() && entries(s.tables[#[trigger] a[i]]).contains(x);
        assert(all[i] == a[i]);
    } else {
        let i = choose|i: int| 0 <= i < b.len() && entries(s.tables[#[trigger] b[i]]).contains(x);
        assert(all[a.len() + i] == b[i]);
    }
}

/// What merging levels hands out is sorted, does not fail, and comes from the tables of the task.
pub proof fn lemma_level_source_sound(s: StateView, t: LevelTaskView)
    requires
        forall|i: int| 0 <= i < t.upper.len() ==> sound_table(s.tables[#[trigger] t.upper[i]]),
        forall|i: int| 0 <= i < t.lower.len() ==> sound_table(s.tables[#[trigger] t.lower[i]]),
        leveled::is_run(s.tables, t.lower),
        t.upper_level is Some ==> leveled::is_run(s.tables, t.upper),
    ensures
        compact::level_source(s, t) matches Ok(a) && merge_iterator::sound_stream(a),
        forall|x: Entry| #[trigger]
            compact::level_source(s, t)->Ok_0.entries.contains(x) ==> exists|i: int|
                0 <= i < (t.upper + t.lower).len() && entries(
                    s.tables[#[trigger] (t.upper + t.lower)[i]],
                ).contains(x),
{
    lemma_joined_source(s, t.lower);
    if t.upper_level is Some {
        lemma_joined_source(s, t.upper);
    } else {
        lemma_merged_source(s, t.upper);
    }
    let b = compact::joined_tables(compact::tables_of(s, t.lower))->Ok_0;
    let a = if t.upper_level is Some {
        compact::joined_tables(compact::tables_of(s, t.upper))->Ok_0
    } else {
        compact::merged_tables(compact::tables_of(s, t.upper))->Ok_0
    };
    lemma_pair_source(a, b, seq![a, b]);
    let m = merge_iterator::merged(seq![a, b]);
    assert(compact::level_source(s, t)->Ok_0 == m);
    assert forall|x: Entry| #[trigger] m.entries.contains(x) implies from_tables(
        s,
        t.upper + t.lower,
        x,
    ) by {
        lemma_from_either(s, t.upper, t.lower, x);
    }
}

/// The new tables have the next numbers.
pub open spec fn numbered(new: Seq<TableView>, next: int) -> bool {
    forall|i: int| 0 <= i < new.len() ==> (#[trigger] new[i]).id == next + i
}

pub(crate) proof fn lemma_stored_lookup(m: Map<usize, TableView>, new: Seq<TableView>, next: int)
    requires
        numbered(new, next),
    ensures
        forall|id: usize|
            id < next ==> (#[trigger] compact::stored(m, new).dom().contains(id)
                <==> m.dom().contains(id)),
        forall|id: usize| id < next ==> #[trigger] compact::stored(m, new)[id] == m[id],
        forall|i: int|
            0 <= i < new.len() ==> compact::stored(m, new).dom().contains((#[trigger] new[i]).id)
                && compact::stored(m, new)[new[i].id] == new[i],
        forall|id: usize|
            id >= next && #[trigger] compact::stored(m, new).dom().contains(id) && !m.dom().contains(
                id,
            ) ==> id < next + new.len(),
    decreases new.len(),
{
    if new.len() > 0 {
        let init = new.drop_last();
        assert(numbered(init, next)) by {
            assert forall|i: int| 0 <= i < init.len() implies (#[trigger] init[i]).id == next
                + i by {
                assert(init[i] == new[i]);
            }
        }
        lemma_stored_lookup(m, init, next);
        assert(new.last() == new[new.len() - 1]);
        let before = compact::stored(m, init);
        let after = compact::stored(m, new);
        assert(after == before.insert(new.last().id, new.last()));
        assert forall|id: usize| id < next implies (#[trigger] after.dom().contains(id)
            <==> m.dom().contains(id)) by {
            assert(before.dom().contains(id) <==> m.dom().contains(id));
        }
        assert forall|id: usize| id < next implies #[trigger] after[id] == m[id] by {
            assert(before[id] == m[id]);
        }
        assert forall|id: usize|
            id >= next && #[trigger] after.dom().contains(id) && !m.dom().contains(id) implies id
            < next + new.len() by {
            if id != new.last().id {
                assert(before.dom().contains(id));
            }
        }
        assert forall|i: int| 0 <= i < new.len() implies compact::stored(m, new).dom().contains(
            (#[trigger] new[i]).id,
        ) && compact::stored(m, new)[new[i].id] == new[i] by {
            if i < init.len() {
                assert(init[i] == new[i]);
            }
        }
    }
}

/// The maps agree on the tables of the list.
pub open spec fn agree(m: Map<usize, TableView>, n: Map<usize, TableView>, list: Seq<usize>) -> bool {
    forall|i: int| 0 <= i < list.len() ==> m[#[trigger] list[i]] == n[list[i]]
}

proof fn lemma_run_frame(m: Map<usize, TableView>, n: Map<usize, TableView>, list: Seq<usize>)
    requires
        agree(m, n, list),
        leveled::is_run(m, list),
    ensures
        leveled::is_run(n, list),
{
    assert forall|i: int| 0 <= i < list.len() implies #[trigger] leveled::spans(n, list[i]) by {
        assert(leveled::spans(m, list[i]));
    }
    assert forall|i: int, j: int| 0 <= i < j < list.len() implies leveled::ends_before(
        n,
        #[trigger] list[i],
        #[trigger] list[j],
    ) by {
        assert(leveled::ends_before(m, list[i], list[j]));
    }
}

proof fn lemma_range_frame(m: Map<usize, TableView>, n: Map<usize, TableView>, list: Seq<usize>)
    requires
        agree(m, n, list),
        list.len() > 0,
    ensures
        leveled::begin_key(m, list) == leveled::begin_key(n, list),
        leveled::end_key(m, list) == leveled::end_key(n, list),
    decreases list.len(),
{
    assert(m[list[list.len() - 1]] == n[list[list.len() - 1]]);
    if list.len() > 1 {
        let init = list.drop_last();
        assert(agree(m, n, init)) by {
            assert forall|i: int| 0 <= i < init.len() implies m[#[trigger] init[i]]
                == n[init[i]] by {
                assert(m[list[i]] == n[list[i]]);
            }
        }
        lemma_range_frame(m, n, init);
    }
}

proof fn lemma_overlap_frame(
    m: Map<usize, TableView>,
    n: Map<usize, TableView>,
    level: Seq<usize>,
    begin: Key,
    end: Key,
)
    requires
        agree(m, n, level),
    ensures
        leveled::overlapping(m, level, begin, end) == leveled::overlapping(n, level, begin, end),
    decreases level.len(),
{
    if level.len() > 0 {
        let init = level.drop_last();
        assert(m[level[level.len() - 1]] == n[level[level.len() - 1]]);
        assert(agree(m, n, init)) by {
            assert forall|i: int| 0 <= i < init.len() implies m[#[trigger] init[i]]
                == n[init[i]] by {
                assert(m[level[i]] == n[level[i]]);
            }
        }
        lemma_overlap_frame(m, n, init, begin, end);
    }
}

/// A new state whose lists hold numbers of the old ones that were not replaced, and in level `low`
/// numbers of new tables.
spec fn steps_to(
    s: StateView,
    s2: StateView,
    files: Seq<usize>,
    new: Seq<TableView>,
    low: int,
) -> bool {
    &&& s2.tables == compact::stored(s.tables, new).remove_keys(files.to_set())
    &&& s2.l0.no_duplicates()
    &&& forall|a: int|
        0 <= a < s2.l0.len() ==> s.l0.contains(#[trigger] s2.l0[a]) && !files.contains(s2.l0[a])
    &&& s2.levels.len() == s.levels.len()
    &&& forall|i: int| 0 <= i < s2.levels.len() ==> #[trigger] level_steps(s, s2, files, new, low, i)
}

spec fn level_steps(
    s: StateView,
    s2: StateView,
    files: Seq<usize>,
    new: Seq<TableView>,
    low: int,
    i: int,
) -> bool {
    &&& leveled::is_run(compact::stored(s.tables, new), s2.levels[i].1)
    &&& forall|a: int|
        0 <= a < s2.levels[i].1.len() ==> stays_or_comes(
            s,
            files,
            new,
            low,
            i,
            #[trigger] s2.levels[i].1[a],
        )
}

spec fn stays_or_comes(
    s: StateView,
    files: Seq<usize>,
    new: Seq<TableView>,
    low: int,
    i: int,
    x: usize,
) -> bool {
    ||| s.levels[i].1.contains(x) && !files.contains(x)
    ||| i == low && compact::ids_of(new).contains(x)
}

proof fn lemma_steps_orderly(
    s: StateView,
    next: int,
    s2: StateView,
    files: Seq<usize>,
    new: Seq<TableView>,
    low: int,
)
    requires
        orderly(s, next),
        numbered(new, next),
        forall|i: int| 0 <= i < new.len() ==> sound_table(#[trigger] new[i]),
        s.knows(files),
        steps_to(s, s2, files, new, low),
    ensures
        orderly(s2, next + new.len()),
{
    let m = compact::stored(s.tables, new);
    let output = compact::ids_of(new);
    lemma_stored_lookup(s.tables, new, next);
    // A number of a level is known afterwards, is not in L0, and was in the level or is new.
    assert forall|i: int, a: int|
        0 <= i < s2.levels.len() && 0 <= a < s2.levels[i].1.len() implies {
        let x = #[trigger] s2.levels[i].1[a];
        &&& s2.tables.dom().contains(x)
        &&& s2.tables[x] == m[x]
        &&& s.levels[i].1.contains(x) && x < next || i == low && x >= next
    } by {
        let x = s2.levels[i].1[a];
        assert(level_steps(s, s2, files, new, low, i));
        assert(stays_or_comes(s, files, new, low, i, x));
        if s.levels[i].1.contains(x) && !files.contains(x) {
            let b = choose|b: int| 0 <= b < s.levels[i].1.len() && s.levels[i].1[b] == x;
            assert(level_orderly(s, i));
            assert(s.tables.dom().contains(s.levels[i].1[b]));
        } else {
            let b = choose|b: int| 0 <= b < output.len() && output[b] == x;
            assert(new[b].id == x);
            assert(!files.contains(x)) by {
                if files.contains(x) {
                    let c = choose|c: int| 0 <= c < files.len() && files[c] == x;
                    assert(s.tables.dom().contains(files[c]));
                }
            }
        }
        assert(!files.to_set().contains(x));
    }
    assert forall|a: int| 0 <= a < s2.l0.len() implies s2.tables.dom().contains(
        #[trigger] s2.l0[a],
    ) && s2.l0[a] < next by {
        let x = s2.l0[a];
        let b = choose|b: int| 0 <= b < s.l0.len() && s.l0[b] == x;
        assert(s.tables.dom().contains(s.l0[b]));
        assert(!files.to_set().contains(x));
    }
    assert forall|id: usize| #[trigger] s2.tables.dom().contains(id) implies id < next + new.len()
        && sound_table(s2.tables[id]) by {
        assert(m.dom().contains(id));
        if id < next {
            assert(s.tables.dom().contains(id));
        } else {
            assert(!s.tables.dom().contains(id));
            assert(new[id - next].id == id);
        }
    }
    assert forall|i: int| 0 <= i < s2.levels.len() implies #[trigger] level_orderly(s2, i) by {
        let list = s2.levels[i].1;
        assert(level_steps(s, s2, files, new, low, i));
        assert(agree(m, s2.tables, list)) by {
            assert forall|a: int| 0 <= a < list.len() implies m[#[trigger] list[a]]
                == s2.tables[list[a]] by {
                assert(s2.tables[s2.levels[i].1[a]] == m[s2.levels[i].1[a]]);
            }
        }
        lemma_run_frame(m, s2.tables, list);
        assert forall|a: int| 0 <= a < list.len() implies s2.tables.dom().contains(
            #[trigger] list[a],
        ) by {
            assert(s2.tables.dom().contains(s2.levels[i].1[a]));
        }
        assert forall|a: int| 0 <= a < list.len() implies !s2.l0.contains(#[trigger] list[a]) by {
            let x = s2.levels[i].1[a];
            if s2.l0.contains(x) {
                let b = choose|b: int| 0 <= b < s2.l0.len() && s2.l0[b] == x;
                assert(s.l0.contains(s2.l0[b]) && s2.l0[b] < next);
                let c = choose|c: int| 0 <= c < s.levels[i].1.len() && s.levels[i].1[c] == x;
                assert(level_orderly(s, i));
                assert(!s.l0.contains(s.levels[i].1[c]));
            }
        }
    }
    assert forall|i: int, j: int|
        0 <= i < s2.levels.len() && 0 <= j < s2.levels.len() && i != j implies disjoint(
        (#[trigger] s2.levels[i]).1,
        (#[trigger] s2.levels[j]).1,
    ) by {
        let p = s2.levels[i].1;
        let q = s2.levels[j].1;
        assert forall|a: int| 0 <= a < p.len() implies !q.contains(#[trigger] p[a]) by {
            let x = s2.levels[i].1[a];
            if q.contains(x) {
                let b = choose|b: int| 0 <= b < q.len() && q[b] == x;
                let y = s2.levels[j].1[b];
                assert(x == y);
                let c = choose|c: int| 0 <= c < s.levels[i].1.len() && s.levels[i].1[c] == x;
                assert(disjoint(s.levels[i].1, s.levels[j].1));
                assert(!s.levels[j].1.contains(s.levels[i].1[c]));
            }
        }
    }
}

pub(crate) proof fn lemma_without_distinct(list: Seq<usize>, set: Set<usize>)
    requires
        list.no_duplicates(),
    ensures
        ids::without(list, set).no_duplicates(),
        forall|x: usize| #[trigger]
            ids::without(list, set).contains(x) <==> list.contains(x) && !set.contains(x),
    decreases list.len(),
{
    let r = ids::without(list, set);
    if list.len() == 0 {
        assert forall|x: usize| #[trigger] r.contains(x) <==> list.contains(x) && !set.contains(
            x,
        ) by {}
    } else {
        let h = list[0];
        let rest = list.drop_first();
        assert(rest.no_duplicates()) by {
            assert forall|i: int, j: int| 0 <= i < j < rest.len() implies rest[i] != rest[j] by {
                assert(rest[i] == list[i + 1] && rest[j] == list[j + 1]);
            }
        }
        assert(!rest.contains(h)) by {
            if rest.contains(h) {
                let i = choose|i: int| 0 <= i < rest.len() && rest[i] == h;
                assert(list[i + 1] == h);
            }
        }
        assert forall|x: usize|
            #![trigger list.contains(x)]
            #![trigger rest.contains(x)]
            list.contains(x) <==> x == h || rest.contains(x) by {
            if list.contains(x) {
                let i = choose|i: int| 0 <= i < list.len() && list[i] == x;
                if i > 0 {
                    assert(rest[i - 1] == x);
                }
            }
            if rest.contains(x) {
                let i = choose|i: int| 0 <= i < rest.len() && rest[i] == x;
                assert(list[i + 1] == x);
            }
            if x == h {
                assert(list[0] == x);
            }
        }
        if set.contains(h) {
            lemma_without_distinct(rest, set.remove(h));
        } else {
            lemma_without_distinct(rest, set);
            let more = ids::without(rest, set);
            assert(r == seq![h] + more);
            assert forall|x: usize| #[trigger] r.contains(x) <==> list.contains(x)
                && !set.contains(x) by {
                if r.contains(x) {
                    let i = choose|i: int| 0 <= i < r.len() && r[i] == x;
                    if i > 0 {
                        assert(more[i - 1] == x);
                        assert(more.contains(x));
                    }
                }
                if list.contains(x) && !set.contains(x) {
                    if x == h {
                        assert(r[0] == x);
                    } else {
                        assert(rest.contains(x));
                        assert(more.contains(x));
                        let i = choose|i: int| 0 <= i < more.len() && more[i] == x;
                        assert(r[i + 1] == x);
                    }
                }
            }
            assert forall|i: int, j: int| 0 <= i < j < r.len() implies r[i] != r[j] by {
                assert(r[j] == more[j - 1]);
                if i > 0 {
                    assert(r[i] == more[i - 1]);
                } else {
                    assert(more.contains(more[j - 1]));
                }
            }
        }
    }
}

/// What the output of a level task is: sound tables in key order with the next numbers, inside the
/// key range of the tables of the task.
pub(crate) proof fn lemma_level_output(s: StateView, next: int, t: LevelTaskView, p: Plan)
    requires
        orderly(s, next),
        next >= 0,
        s.knows(t.upper),
        s.knows(t.lower),
        leveled::is_run(s.tables, t.lower),
        t.upper_level is Some ==> leveled::is_run(s.tables, t.upper),
        storable(p.output(compact::level_source(s, t)->Ok_0)),
        next + p.output(compact::level_source(s, t)->Ok_0).tables.len() <= usize::MAX,
    ensures
        ({
            let new = compact::tables_from(
                p.output(compact::level_source(s, t)->Ok_0),
                next,
            );
            let m = compact::stored(s.tables, new);
            &&& numbered(new, next)
            &&& forall|i: int| 0 <= i < new.len() ==> sound_table(#[trigger] new[i])
            &&& leveled::is_run(m, compact::ids_of(new))
            &&& leveled::within(m, compact::ids_of(new), t.upper + t.lower)
            &&& agree(s.tables, m, t.upper + t.lower)
        }),
{
    let all = t.upper + t.lower;
    assert forall|i: int| 0 <= i < t.upper.len() implies sound_table(
        s.tables[#[trigger] t.upper[i]],
    ) by {
        assert(s.tables.dom().contains(t.upper[i]));
    }
    assert forall|i: int| 0 <= i < t.lower.len() implies sound_table(
        s.tables[#[trigger] t.lower[i]],
    ) by {
        assert(s.tables.dom().contains(t.lower[i]));
    }
    lemma_level_source_sound(s, t);
    let src = compact::level_source(s, t)->Ok_0;
    let out = p.output(src);
    let new = compact::tables_from(out, next);
    let m = compact::stored(s.tables, new);
    let output = compact::ids_of(new);
    lemma_output_run(p, src, next);
    assert(numbered(new, next));
    lemma_stored_lookup(s.tables, new, next);
    assert forall|i: int| 0 <= i < new.len() implies sound_table(#[trigger] new[i]) by {
        assert(sound_table(compact::tables_from(out, next)[i]));
    }
    assert forall|i: int| 0 <= i < output.len() implies m[#[trigger] output[i]] == new[i] by {
        assert(new[i].id == output[i]);
    }
    assert(leveled::is_run(m, output)) by {
        assert forall|i: int| 0 <= i < output.len() implies #[trigger] leveled::spans(
            m,
            output[i],
        ) by {
            assert(m[output[i]] == new[i]);
        }
        assert forall|i: int, j: int| 0 <= i < j < output.len() implies leveled::ends_before(
            m,
            #[trigger] output[i],
            #[trigger] output[j],
        ) by {
            assert(m[output[i]] == new[i] && m[output[j]] == new[j]);
        }
    }
    assert(agree(s.tables, m, all)) by {
        assert forall|i: int| 0 <= i < all.len() implies s.tables[#[trigger] all[i]]
            == m[all[i]] by {
            if i < t.upper.len() {
                assert(s.tables.dom().contains(t.upper[i]));
            } else {
                assert(s.tables.dom().contains(t.lower[i - t.upper.len()]));
            }
        }
    }
    if all.len() == 0 {
        assert(src.entries.len() == 0) by {
            if src.entries.len() > 0 {
                assert(src.entries.contains(src.entries[0]));
            }
        }
        reveal(Plan::output);
        assert(BuilderView::empty(p.block_size).all() =~= Seq::empty());
        assert(output.len() == 0);
    } else {
        lemma_range_frame(s.tables, m, all);
        leveled::lemma_begin_key(s.tables, all);
    }
    assert forall|x: Entry| #[trigger] src.entries.contains(x) implies key::key_le(
        leveled::begin_key(m, all),
        x.key,
    ) && key::key_le(x.key, leveled::end_key(m, all)) by {
        let i = choose|i: int|
            0 <= i < all.len() && entries(s.tables[#[trigger] all[i]]).contains(x);
        let t1 = s.tables[all[i]];
        assert(sound_table(t1)) by {
            if i < t.upper.len() {
                assert(sound_table(s.tables[t.upper[i]]));
            } else {
                assert(sound_table(s.tables[t.lower[i - t.upper.len()]]));
            }
        }
        let a = choose|a: int| 0 <= a < entries(t1).len() && entries(t1)[a] == x;
        lemma_sorted_between(entries(t1), a);
        lemma_key_le_chain(leveled::begin_key(m, all), t1.first_key, x.key);
        lemma_key_le_chain(x.key, t1.last_key, leveled::end_key(m, all));
    }
    assert forall|i: int| 0 <= i < output.len() implies {
        &&& key::key_le(leveled::begin_key(m, all), m[#[trigger] output[i]].first_key)
        &&& key::key_le(m[output[i]].last_key, leveled::end_key(m, all))
    } by {
        let t1 = compact::tables_from(out, next)[i];
        assert(m[output[i]] == t1);
        let x = choose|x: Entry| src.entries.contains(x) && #[trigger] x.key == t1.first_key;
        assert(src.entries.contains(x));
        let y = choose|y: Entry| src.entries.contains(y) && #[trigger] y.key == t1.last_key;
        assert(src.entries.contains(y));
    }
}

/// The list that the upper tables of a task are taken from: a level, counted from 0, or L0.
pub open spec fn upper_list(s: StateView, u: Option<int>) -> Seq<usize> {
    match u {
        Some(i) => s.levels[i].1,
        None => s.l0,
    }
}

/// The tables of a task come from the lists that it takes them from.
spec fn taken_from(s: StateView, files: Seq<usize>, u: Option<int>, low: int) -> bool {
    forall|a: int|
        0 <= a < files.len() ==> upper_list(s, u).contains(#[trigger] files[a])
            || s.levels[low].1.contains(files[a])
}

proof fn lemma_apart(s: StateView, next: int, i: int, j: int, x: usize)
    requires
        orderly(s, next),
        0 <= i < s.levels.len(),
        0 <= j < s.levels.len(),
        s.levels[i].1.contains(x),
    ensures
        !s.l0.contains(x),
        i != j ==> !s.levels[j].1.contains(x),
{
    let b = choose|b: int| 0 <= b < s.levels[i].1.len() && s.levels[i].1[b] == x;
    assert(level_orderly(s, i));
    assert(!s.l0.contains(s.levels[i].1[b]));
    if i != j {
        assert(disjoint(s.levels[i].1, s.levels[j].1));
        assert(!s.levels[j].1.contains(s.levels[i].1[b]));
    }
}

/// A level that a task does not touch stays as it is.
proof fn lemma_untouched(
    s: StateView,
    next: int,
    s2: StateView,
    files: Seq<usize>,
    new: Seq<TableView>,
    u: Option<int>,
    low: int,
    i: int,
)
    requires
        orderly(s, next),
        numbered(new, next),
        taken_from(s, files, u, low),
        u matches Some(j) ==> 0 <= j < s.levels.len() && i != j,
        0 <= low < s.levels.len(),
        0 <= i < s.levels.len(),
        i != low,
        s2.levels[i].1 == s.levels[i].1,
    ensures
        level_steps(s, s2, files, new, low, i),
{
    let m = compact::stored(s.tables, new);
    let list = s.levels[i].1;
    lemma_stored_lookup(s.tables, new, next);
    assert(level_orderly(s, i));
    assert(agree(s.tables, m, list)) by {
        assert forall|a: int| 0 <= a < list.len() implies s.tables[#[trigger] list[a]]
            == m[list[a]] by {
            assert(s.tables.dom().contains(list[a]));
        }
    }
    lemma_run_frame(s.tables, m, list);
    assert forall|a: int| 0 <= a < list.len() implies stays_or_comes(
        s,
        files,
        new,
        low,
        i,
        #[trigger] list[a],
    ) by {
        let x = list[a];
        assert(list.contains(x));
        lemma_apart(s, next, i, low, x);
        if u is Some {
            lemma_apart(s, next, i, u->0, x);
        }
        if files.contains(x) {
            let c = choose|c: int| 0 <= c < files.len() && files[c] == x;
            assert(upper_list(s, u).contains(files[c]) || s.levels[low].1.contains(files[c]));
        }
    }
}

/// L0 keeps the tables that a task does not take.
proof fn lemma_l0_steps(
    s: StateView,
    next: int,
    l0: Seq<usize>,
    upper: Seq<usize>,
    lower: Seq<usize>,
    u: Option<int>,
    low: int,
)
    requires
        orderly(s, next),
        taken_from(s, upper + lower, u, low),
        u matches Some(j) ==> 0 <= j < s.levels.len(),
        0 <= low < s.levels.len(),
        forall|a: int| 0 <= a < lower.len() ==> s.levels[low].1.contains(#[trigger] lower[a]),
        u is Some ==> l0 == s.l0,
        u is None ==> l0 == ids::without(s.l0, upper.to_set()),
    ensures
        l0.no_duplicates(),
        forall|a: int|
            0 <= a < l0.len() ==> s.l0.contains(#[trigger] l0[a]) && !(upper + lower).contains(
                l0[a],
            ),
{
    let files = upper + lower;
    lemma_without_distinct(s.l0, upper.to_set());
    assert forall|a: int| 0 <= a < l0.len() implies s.l0.contains(#[trigger] l0[a])
        && !files.contains(l0[a]) by {
        let x = l0[a];
        assert(l0.contains(x));
        if files.contains(x) {
            let c = choose|c: int| 0 <= c < files.len() && files[c] == x;
            if c >= upper.len() {
                assert(lower[c - upper.len()] == x);
                lemma_apart(s, next, low, low, x);
            } else {
                assert(upper[c] == x);
                if u is Some {
                    assert(upper_list(s, u).contains(files[c]) || s.levels[low].1.contains(files[c]));
                    if s.levels[u->0].1.contains(x) {
                        lemma_apart(s, next, u->0, low, x);
                    } else {
                        lemma_apart(s, next, low, low, x);
                    }
                }
            }
        }
    }
}

/// Compacting whole levels keeps the order of the tables: if the tables of every level do not
/// overlap and stand in key order, they do so after the task that is due.
pub proof fn lemma_simple_keeps_order(
    s: StateView,
    next: int,
    o: SimpleLeveledCompactionOptions,
    p: Plan,
)
    requires
        orderly(s, next),
        next >= 0,
        simple_leveled::enough_levels(s, o),
        simple_leveled::simple_task(s, o) is Some,
        ({
            let t = simple_leveled::simple_task(s, o)->0;
            let out = p.output(compact::level_source(s, t)->Ok_0);
            storable(out) && next + out.tables.len() <= usize::MAX
        }),
    ensures
        ({
            let t = simple_leveled::simple_task(s, o)->0;
            let out = p.output(compact::level_source(s, t)->Ok_0);
            let new = compact::tables_from(out, next);
            orderly(compact::installed(s, TaskView::Simple(t), new), next + new.len())
        }),
{
    let t = simple_leveled::simple_task(s, o)->0;
    let out = p.output(compact::level_source(s, t)->Ok_0);
    let new = compact::tables_from(out, next);
    let s2 = compact::installed(s, TaskView::Simple(t), new);
    let files = t.upper + t.lower;
    let low = t.lower_level - 1;
    let u: Option<int> = match t.upper_level {
        Some(l) => Some(l - 1),
        None => None,
    };
    if !simple_leveled::l0_full(s, o) {
        simple_leveled::lemma_ratio_task(s, o, 1);
        assert(level_orderly(s, u->0));
    }
    assert(level_orderly(s, low));
    lemma_level_output(s, next, t, p);
    assert(s.knows(files)) by {
        assert forall|a: int| 0 <= a < files.len() implies s.tables.dom().contains(
            #[trigger] files[a],
        ) by {
            if a < t.upper.len() {
                assert(s.tables.dom().contains(t.upper[a]));
            } else {
                assert(s.tables.dom().contains(t.lower[a - t.upper.len()]));
            }
        }
    }
    assert(taken_from(s, files, u, low)) by {
        assert forall|a: int| 0 <= a < files.len() implies upper_list(s, u).contains(
            #[trigger] files[a],
        ) || s.levels[low].1.contains(files[a]) by {
            if a < t.upper.len() {
                assert(upper_list(s, u)[a] == files[a]);
            } else {
                assert(s.levels[low].1[a - t.upper.len()] == files[a]);
            }
        }
    }
    assert forall|a: int| 0 <= a < t.lower.len() implies s.levels[low].1.contains(
        #[trigger] t.lower[a],
    ) by {
        assert(s.levels[low].1[a] == t.lower[a]);
    }
    lemma_l0_steps(s, next, s2.l0, t.upper, t.lower, u, low);
    assert forall|i: int| 0 <= i < s2.levels.len() implies #[trigger] level_steps(
        s,
        s2,
        files,
        new,
        low,
        i,
    ) by {
        if i == low {
            assert(s2.levels[i].1 == compact::ids_of(new));
            assert forall|a: int| 0 <= a < s2.levels[i].1.len() implies stays_or_comes(
                s,
                files,
                new,
                low,
                i,
                #[trigger] s2.levels[i].1[a],
            ) by {
                assert(compact::ids_of(new).contains(compact::ids_of(new)[a]));
            }
        } else if u == Some(i) {
            assert(s2.levels[i].1.len() == 0);
        } else {
            lemma_untouched(s, next, s2, files, new, u, low, i);
        }
    }
    lemma_steps_orderly(s, next, s2, files, new, low);
}

pub(crate) proof fn lemma_run_distinct(m: Map<usize, TableView>, list: Seq<usize>)
    requires
        leveled::is_run(m, list),
    ensures
        list.no_duplicates(),
{
    assert forall|i: int, j: int|
        0 <= i < list.len() && 0 <= j < list.len() && i != j implies list[i] != list[j] by {
        if list[i] == list[j] {
            assert(leveled::spans(m, list[i]));
            if i < j {
                assert(leveled::ends_before(m, list[i], list[j]));
            } else {
                assert(leveled::ends_before(m, list[j], list[i]));
            }
            leveled::lemma_le_lt(m[list[i]].first_key, m[list[i]].last_key, m[list[i]].first_key);
        }
    }
}

/// The tables of a run that overlap a range are a run.
proof fn lemma_overlapping_run(
    m: Map<usize, TableView>,
    level: Seq<usize>,
    begin: Key,
    end: Key,
)
    requires
        leveled::is_run(m, level),
    ensures
        leveled::is_run(m, leveled::overlapping(m, level, begin, end)),
    decreases level.len(),
{
    if level.len() > 0 {
        let init = level.drop_last();
        assert(leveled::is_run(m, init)) by {
            assert forall|i: int| 0 <= i < init.len() implies #[trigger] leveled::spans(
                m,
                init[i],
            ) by {
                assert(leveled::spans(m, level[i]));
            }
            assert forall|i: int, j: int| 0 <= i < j < init.len() implies leveled::ends_before(
                m,
                #[trigger] init[i],
                #[trigger] init[j],
            ) by {
                assert(leveled::ends_before(m, level[i], level[j]));
            }
        }
        lemma_overlapping_run(m, init, begin, end);
        let some = leveled::overlapping(m, init, begin, end);
        let all = leveled::overlapping(m, level, begin, end);
        let last = level[level.len() - 1];
        if leveled::overlaps(m[last], begin, end) {
            assert forall|i: int| 0 <= i < all.len() implies #[trigger] leveled::spans(
                m,
                all[i],
            ) by {
                if i < some.len() {
                    assert(leveled::spans(m, some[i]));
                } else {
                    assert(leveled::spans(m, last));
                }
            }
            assert forall|i: int, j: int| 0 <= i < j < all.len() implies leveled::ends_before(
                m,
                #[trigger] all[i],
                #[trigger] all[j],
            ) by {
                if j < some.len() {
                    assert(all[i] == some[i] && all[j] == some[j]);
                } else {
                    assert(some.contains(some[i]));
                    leveled::lemma_overlapping(m, init, begin, end, some[i]);
                    let h = choose|h: int| 0 <= h < init.len() && init[h] == some[i];
                    assert(leveled::ends_before(m, level[h], level[level.len() - 1]));
                }
            }
        }
    }
}

/// The tables that a leveled task names stand in the lists that it takes them from, and are runs
/// where they come from levels.
pub(crate) proof fn lemma_leveled_task_tables(s: StateView, next: int, o: LeveledCompactionOptions)
    requires
        orderly(s, next),
        leveled::plannable(s, o),
        leveled::leveled_task(s, o) is Some,
    ensures
        ({
            let t = leveled::leveled_task(s, o)->0;
            let u: Option<int> = match t.upper_level {
                Some(l) => Some(l - 1),
                None => None,
            };
            let low = t.lower_level - 1;
            &&& 0 <= low < s.levels.len()
            &&& u matches Some(j) ==> 0 <= j < s.levels.len() && j != low
            &&& t.upper.len() > 0
            &&& s.knows(t.upper)
            &&& s.knows(t.lower)
            &&& t.upper_level is Some ==> leveled::is_run(s.tables, t.upper)
            &&& leveled::is_run(s.tables, t.lower)
            &&& t.lower == leveled::overlapping(
                s.tables,
                s.levels[low].1,
                leveled::begin_key(s.tables, t.upper),
                leveled::end_key(s.tables, t.upper),
            )
            &&& forall|a: int|
                0 <= a < t.upper.len() ==> upper_list(s, u).contains(#[trigger] t.upper[a])
            &&& forall|a: int|
                0 <= a < t.lower.len() ==> s.levels[low].1.contains(#[trigger] t.lower[a])
            &&& t.upper_level is None ==> t.upper == s.l0
            &&& t.upper_level matches Some(l) ==> l + 1 == t.lower_level
        }),
{
    let t = leveled::leveled_task(s, o)->0;
    let low = t.lower_level - 1;
    if leveled::l0_full(s, o) {
        leveled::lemma_base_level(s, o, 0);
        assert forall|a: int| 0 <= a < t.upper.len() implies s.l0.contains(
            #[trigger] t.upper[a],
        ) by {
            assert(s.l0[a] == t.upper[a]);
        }
    } else {
        leveled::lemma_fullest(s, o, o.max_levels as int);
        let i = leveled::fullest(s, o, o.max_levels as int)->0;
        let level = s.levels[i].1;
        assert(level.len() > 0);
        leveled::lemma_oldest(level);
        let x = leveled::oldest(level);
        let c = choose|c: int| 0 <= c < level.len() && level[c] == x;
        assert(level_orderly(s, i));
        assert(s.tables.dom().contains(level[c]));
        assert(leveled::spans(s.tables, level[c]));
        assert(t.upper == seq![x]);
        assert forall|a: int| 0 <= a < t.upper.len() implies level.contains(
            #[trigger] t.upper[a],
        ) by {}
        assert(leveled::is_run(s.tables, t.upper));
    }
    assert(level_orderly(s, low));
    let level = s.levels[low].1;
    let begin = leveled::begin_key(s.tables, t.upper);
    let end = leveled::end_key(s.tables, t.upper);
    lemma_overlapping_run(s.tables, level, begin, end);
    assert forall|a: int| 0 <= a < t.lower.len() implies level.contains(#[trigger] t.lower[a])
        && s.tables.dom().contains(t.lower[a]) by {
        assert(t.lower.contains(t.lower[a]));
        leveled::lemma_overlapping(s.tables, level, begin, end, t.lower[a]);
        let c = choose|c: int| 0 <= c < level.len() && level[c] == t.lower[a];
        assert(s.tables.dom().contains(level[c]));
    }
}

/// Compacting single tables keeps the order of the tables: if the tables of every level do not
/// overlap and stand in key order, they do so after the task that is due.
pub proof fn lemma_leveled_keeps_order(
    s: StateView,
    next: int,
    o: LeveledCompactionOptions,
    p: Plan,
)
    requires
        orderly(s, next),
        next >= 0,
        leveled::plannable(s, o),
        leveled::leveled_task(s, o) is Some,
        ({
            let t = leveled::leveled_task(s, o)->0;
            let out = p.output(compact::level_source(s, t)->Ok_0);
            storable(out) && next + out.tables.len() <= usize::MAX
        }),
    ensures
        ({
            let t = leveled::leveled_task(s, o)->0;
            let out = p.output(compact::level_source(s, t)->Ok_0);
            let new = compact::tables_from(out, next);
            orderly(compact::installed(s, TaskView::Leveled(t), new), next + new.len())
        }),
{
    let t = leveled::leveled_task(s, o)->0;
    let out = p.output(compact::level_source(s, t)->Ok_0);
    let new = compact::tables_from(out, next);
    let m = compact::stored(s.tables, new);
    let known = StateView { tables: m, ..s };
    let s2 = compact::installed(s, TaskView::Leveled(t), new);
    let files = t.upper + t.lower;
    let output = compact::ids_of(new);
    let low = t.lower_level - 1;
    let u: Option<int> = match t.upper_level {
        Some(l) => Some(l - 1),
        None => None,
    };
    lemma_leveled_task_tables(s, next, o);
    lemma_level_output(s, next, t, p);
    lemma_stored_lookup(s.tables, new, next);
    assert(s.knows(files) && taken_from(s, files, u, low)) by {
        assert forall|a: int| 0 <= a < files.len() implies s.tables.dom().contains(
            #[trigger] files[a],
        ) && (upper_list(s, u).contains(files[a]) || s.levels[low].1.contains(files[a])) by {
            if a < t.upper.len() {
                assert(s.tables.dom().contains(t.upper[a]));
            } else {
                assert(s.tables.dom().contains(t.lower[a - t.upper.len()]));
            }
        }
    }
    lemma_l0_steps(s, next, s2.l0, t.upper, t.lower, u, low);
    assert forall|i: int| 0 <= i < s2.levels.len() implies #[trigger] level_steps(
        s,
        s2,
        files,
        new,
        low,
        i,
    ) by {
        if i == low {
            lemma_low_steps(s, next, t, new, u, s2);
        } else if u == Some(i) {
            lemma_upper_steps(s, next, t, new, low, i, s2);
        } else {
            lemma_untouched(s, next, s2, files, new, u, low, i);
        }
    }
    lemma_steps_orderly(s, next, s2, files, new, low);
}

/// The upper level loses the tables of a task.
proof fn lemma_upper_steps(
    s: StateView,
    next: int,
    t: LevelTaskView,
    new: Seq<TableView>,
    low: int,
    i: int,
    s2: StateView,
)
    requires
        orderly(s, next),
        numbered(new, next),
        0 <= i < s.levels.len(),
        0 <= low < s.levels.len(),
        i != low,
        s2.levels[i].1 == ids::without(s.levels[i].1, t.upper.to_set()),
        forall|a: int| 0 <= a < t.lower.len() ==> s.levels[low].1.contains(#[trigger] t.lower[a]),
    ensures
        level_steps(s, s2, t.upper + t.lower, new, low, i),
{
    let m = compact::stored(s.tables, new);
    let level = s.levels[i].1;
    let list = s2.levels[i].1;
    let files = t.upper + t.lower;
    lemma_stored_lookup(s.tables, new, next);
    assert(level_orderly(s, i));
    assert(agree(s.tables, m, level)) by {
        assert forall|a: int| 0 <= a < level.len() implies s.tables[#[trigger] level[a]]
            == m[level[a]] by {
            assert(s.tables.dom().contains(level[a]));
        }
    }
    lemma_run_frame(s.tables, m, level);
    leveled::lemma_without_run(m, level, t.upper.to_set());
    lemma_run_distinct(m, level);
    lemma_without_distinct(level, t.upper.to_set());
    assert forall|a: int| 0 <= a < list.len() implies stays_or_comes(
        s,
        files,
        new,
        low,
        i,
        #[trigger] list[a],
    ) by {
        let x = list[a];
        assert(list.contains(x));
        lemma_apart(s, next, i, low, x);
        if files.contains(x) {
            let c = choose|c: int| 0 <= c < files.len() && files[c] == x;
            if c < t.upper.len() {
                assert(t.upper[c] == x);
                assert(t.upper.to_set().contains(x));
            } else {
                assert(t.lower[c - t.upper.len()] == x);
            }
        }
    }
}

/// The lower level loses the tables of a task and gets the output.
proof fn lemma_low_steps(
    s: StateView,
    next: int,
    t: LevelTaskView,
    new: Seq<TableView>,
    u: Option<int>,
    s2: StateView,
)
    requires
        orderly(s, next),
        numbered(new, next),
        u == (match t.upper_level {
            Some(l) => Some(l - 1),
            None => None::<int>,
        }),
        1 <= t.lower_level <= s.levels.len(),
        u matches Some(j) ==> 0 <= j < s.levels.len() && j != t.lower_level - 1,
        t.upper.len() > 0,
        s.knows(t.upper),
        t.lower == leveled::overlapping(
            s.tables,
            s.levels[t.lower_level - 1].1,
            leveled::begin_key(s.tables, t.upper),
            leveled::end_key(s.tables, t.upper),
        ),
        forall|a: int|
            0 <= a < t.upper.len() ==> upper_list(s, u).contains(#[trigger] t.upper[a]),
        leveled::is_run(compact::stored(s.tables, new), compact::ids_of(new)),
        leveled::within(
            compact::stored(s.tables, new),
            compact::ids_of(new),
            t.upper + t.lower,
        ),
        s2 == compact::installed(s, TaskView::Leveled(t), new),
    ensures
        level_steps(s, s2, t.upper + t.lower, new, t.lower_level - 1, t.lower_level - 1),
{
    let low = t.lower_level - 1;
    let m = compact::stored(s.tables, new);
    let known = StateView { tables: m, ..s };
    let level = s.levels[low].1;
    let output = compact::ids_of(new);
    let files = t.upper + t.lower;
    lemma_stored_lookup(s.tables, new, next);
    assert(level_orderly(s, low));
    assert(agree(s.tables, m, level)) by {
        assert forall|a: int| 0 <= a < level.len() implies s.tables[#[trigger] level[a]]
            == m[level[a]] by {
            assert(s.tables.dom().contains(level[a]));
        }
    }
    assert(agree(s.tables, m, t.upper)) by {
        assert forall|a: int| 0 <= a < t.upper.len() implies s.tables[#[trigger] t.upper[a]]
            == m[t.upper[a]] by {
            assert(s.tables.dom().contains(t.upper[a]));
        }
    }
    lemma_run_frame(s.tables, m, level);
    lemma_range_frame(s.tables, m, t.upper);
    lemma_overlap_frame(
        s.tables,
        m,
        level,
        leveled::begin_key(m, t.upper),
        leveled::end_key(m, t.upper),
    );
    assert(leveled::upper_taken(known, t).levels[low].1 == level);
    leveled::lemma_run_apart(m, output);
    leveled::lemma_lower_stays_run(known, t, output);
    let merged = leveled::lower_merged(known, t, output);
    let kept = ids::without(level, t.lower.to_set());
    let list = s2.levels[low].1;
    assert(list == ids::sorted_by_first_key(m, merged));
    ids::lemma_sorted_by_first_key(m, merged);
    lemma_run_distinct(m, level);
    lemma_without_distinct(level, t.lower.to_set());
    assert forall|a: int| 0 <= a < list.len() implies stays_or_comes(
        s,
        files,
        new,
        low,
        low,
        #[trigger] list[a],
    ) by {
        let x = list[a];
        assert(merged.contains(x));
        let c = choose|c: int| 0 <= c < merged.len() && merged[c] == x;
        if c < kept.len() {
            assert(kept[c] == x);
            assert(kept.contains(x));
            assert(level.contains(x) && !t.lower.to_set().contains(x));
            lemma_apart(s, next, low, low, x);
            if u is Some {
                lemma_apart(s, next, low, u->0, x);
            }
            if files.contains(x) {
                let d = choose|d: int| 0 <= d < files.len() && files[d] == x;
                if d < t.upper.len() {
                    assert(t.upper[d] == x);
                    assert(upper_list(s, u).contains(t.upper[d]));
                } else {
                    assert(t.lower[d - t.upper.len()] == x);
                    assert(t.lower.to_set().contains(x));
                }
            }
        } else {
            assert(output[c - kept.len()] == x);
            assert(output.contains(x));
        }
    }
}

pub(crate) proof fn lemma_stored_remove(
    m: Map<usize, TableView>,
    new: Seq<TableView>,
    files: Set<usize>,
)
    requires
        forall|i: int| 0 <= i < new.len() ==> !files.contains((#[trigger] new[i]).id),
    ensures
        compact::stored(m.remove_keys(files), new) == compact::stored(m, new).remove_keys(files),
    decreases new.len(),
{
    if new.len() > 0 {
        let init = new.drop_last();
        assert forall|i: int| 0 <= i < init.len() implies !files.contains(
            (#[trigger] init[i]).id,
        ) by {
            assert(init[i] == new[i]);
        }
        lemma_stored_remove(m, init, files);
        assert(!files.contains(new[new.len() - 1].id));
        assert(compact::stored(m.remove_keys(files), new) =~= compact::stored(m, new).remove_keys(
            files,
        ));
    }
}

/// A full compaction keeps the order of the tables.
pub proof fn lemma_full_keeps_order(s: StateView, next: int, p: Plan)
    requires
        orderly(s, next),
        next >= 0,
        s.levels.len() > 0,
        ({
            let out = p.output(
                compact::source(s, TaskView::Full(s.l0, s.levels[0].1))->Ok_0,
            );
            storable(out) && next + out.tables.len() <= usize::MAX
        }),
    ensures
        ({
            let l1 = s.levels[0].1;
            let out = p.output(compact::source(s, TaskView::Full(s.l0, l1))->Ok_0);
            let new = compact::tables_from(out, next);
            orderly(compact::fully_installed(s, s.l0, l1, new), next + new.len())
        }),
{
    let l1 = s.levels[0].1;
    let t = LevelTaskView {
        upper_level: None,
        upper: s.l0,
        lower_level: 1,
        lower: l1,
        to_bottom: true,
    };
    assert(level_orderly(s, 0));
    assert forall|i: int| 0 <= i < t.upper.len() implies sound_table(
        s.tables[#[trigger] t.upper[i]],
    ) by {
        assert(s.tables.dom().contains(t.upper[i]));
    }
    assert forall|i: int| 0 <= i < t.lower.len() implies sound_table(
        s.tables[#[trigger] t.lower[i]],
    ) by {
        assert(s.tables.dom().contains(t.lower[i]));
    }
    lemma_level_source_sound(s, t);
    assert(compact::source(s, TaskView::Full(s.l0, l1)) == compact::level_source(s, t));
    lemma_level_output(s, next, t, p);
    let out = p.output(compact::level_source(s, t)->Ok_0);
    let new = compact::tables_from(out, next);
    let files = s.l0 + l1;
    let s2 = compact::fully_installed(s, s.l0, l1, new);
    assert(s.knows(files) && taken_from(s, files, None, 0)) by {
        assert forall|a: int| 0 <= a < files.len() implies s.tables.dom().contains(
            #[trigger] files[a],
        ) && (s.l0.contains(files[a]) || s.levels[0].1.contains(files[a])) by {
            if a < s.l0.len() {
                assert(s.l0[a] == files[a]);
                assert(s.tables.dom().contains(s.l0[a]));
            } else {
                assert(l1[a - s.l0.len()] == files[a]);
                assert(s.tables.dom().contains(l1[a - s.l0.len()]));
            }
        }
    }
    assert forall|i: int| 0 <= i < new.len() implies !files.to_set().contains(
        (#[trigger] new[i]).id,
    ) by {
        if files.contains(new[i].id) {
            let c = choose|c: int| 0 <= c < files.len() && files[c] == new[i].id;
            assert(s.tables.dom().contains(files[c]));
        }
    }
    lemma_stored_remove(s.tables, new, files.to_set());
    assert forall|a: int| 0 <= a < t.lower.len() implies s.levels[0].1.contains(
        #[trigger] t.lower[a],
    ) by {
        assert(l1[a] == t.lower[a]);
    }
    lemma_l0_steps(s, next, s2.l0, s.l0, l1, None, 0);
    assert forall|i: int| 0 <= i < s2.levels.len() implies #[trigger] level_steps(
        s,
        s2,
        files,
        new,
        0,
        i,
    ) by {
        if i == 0 {
            assert(s2.levels[0].1 == compact::ids_of(new));
            assert forall|a: int| 0 <= a < s2.levels[i].1.len() implies stays_or_comes(
                s,
                files,
                new,
                0,
                i,
                #[trigger] s2.levels[i].1[a],
            ) by {
                assert(compact::ids_of(new).contains(compact::ids_of(new)[a]));
            }
        } else {
            lemma_untouched(s, next, s2, files, new, None, 0, i);
        }
    }
    lemma_steps_orderly(s, next, s2, files, new, 0);
}

/// What merging tiers hands out is sorted and does not fail.
pub(crate) proof fn lemma_tier_source_sound(s: StateView, next: int, n: int)
    requires
        orderly(s, next),
        0 <= n <= s.levels.len(),
    ensures
        compact::merged_source(compact::tier_streams(s, s.levels.take(n))) matches Ok(a)
            && merge_iterator::sound_stream(a),
{
    reveal(compact::merged_source);
    let tiers = s.levels.take(n);
    let ss = compact::tier_streams(s, tiers);
    assert forall|i: int| 0 <= i < ss.len() implies #[trigger] merge_iterator::sound_stream(
        ss[i],
    ) by {
        let list = s.levels[i].1;
        assert(level_orderly(s, i));
        assert forall|a: int| 0 <= a < list.len() implies sound_table(
            s.tables[#[trigger] list[a]],
        ) by {
            assert(s.tables.dom().contains(list[a]));
        }
        lemma_joined_source(s, list);
        reveal(compact::joined_tables);
        assert(tiers[i].1 == list);
    }
    lemma_no_first_fault(ss);
    merge_iterator::lemma_merged_sound(ss);
}

/// Compacting tiers keeps the order of the tables: the tables of every tier do not overlap and
/// stand in key order.
pub proof fn lemma_tiered_keeps_order(
    s: StateView,
    next: int,
    o: TieredCompactionOptions,
    p: Plan,
)
    requires
        orderly(s, next),
        next >= 0,
        s.l0.len() == 0,
        s.levels.len() > 0,
        tiered::distinct(s.levels),
        tiered::tiered_task(s, o) is Some,
        (tiered::tiered_task(s, o)->0).tiers.len() > 0,
        ({
            let t = TaskView::Tiered(tiered::tiered_task(s, o)->0);
            let out = p.output(compact::source(s, t)->Ok_0);
            storable(out) && next + out.tables.len() <= usize::MAX
        }),
    ensures
        ({
            let t = TaskView::Tiered(tiered::tiered_task(s, o)->0);
            let out = p.output(compact::source(s, t)->Ok_0);
            let new = compact::tables_from(out, next);
            orderly(compact::installed(s, t, new), next + new.len())
        }),
{
    let task = tiered::tiered_task(s, o)->0;
    let t = TaskView::Tiered(task);
    tiered::lemma_tiered_task(s, o);
    let n = task.tiers.len() as int;
    let taken = s.levels.take(n);
    lemma_tier_source_sound(s, next, n);
    let src = compact::source(s, t)->Ok_0;
    let out = p.output(src);
    let new = compact::tables_from(out, next);
    let s2 = compact::installed(s, t, new);
    lemma_output_run(p, src, next);
    assert(numbered(new, next));
    lemma_tiers_installed(s, task, new);
    assert forall|i: int| 0 <= i < new.len() implies sound_table(#[trigger] new[i]) by {
        assert(sound_table(compact::tables_from(out, next)[i]));
    }
    let files = tiered::tier_files(taken);
    assert forall|x: usize| #[trigger] files.contains(x) implies exists|i: int|
        0 <= i < n && (#[trigger] s.levels[i]).1.contains(x) by {
        lemma_tier_files(taken, x);
        let i = choose|i: int| 0 <= i < taken.len() && (#[trigger] taken[i]).1.contains(x);
        assert(taken[i] == s.levels[i]);
    }
    lemma_tier_steps_orderly(s, next, s2, files, new, n);
}

/// The state after a task that takes the newest tiers.
pub(crate) proof fn lemma_tiers_installed(s: StateView, t: tiered::TierTaskView, new: Seq<TableView>)
    requires
        tiered::distinct(s.levels),
        0 < t.tiers.len() <= s.levels.len(),
        t.tiers == s.levels.take(t.tiers.len() as int),
    ensures
        ({
            let s2 = compact::installed(s, TaskView::Tiered(t), new);
            &&& s2.l0 == s.l0
            &&& s2.levels == tiered::output_tier(compact::ids_of(new)) + s.levels.skip(
                t.tiers.len() as int,
            )
            &&& s2.tables == compact::stored(s.tables, new).remove_keys(
                tiered::tier_files(t.tiers).to_set(),
            )
        }),
{
    let rest = s.levels.skip(t.tiers.len() as int);
    let none = Seq::<(usize, Seq<usize>)>::empty();
    let output = compact::ids_of(new);
    assert(none + t.tiers + rest =~= s.levels);
    tiered::lemma_tiered_applied(none, t.tiers, rest, output);
    assert(none + tiered::output_tier(output) + rest =~= tiered::output_tier(output) + rest);
}

/// The older tiers stay as they are and the output is a tier before them.
proof fn lemma_tier_steps_orderly(
    s: StateView,
    next: int,
    s2: StateView,
    files: Seq<usize>,
    new: Seq<TableView>,
    n: int,
)
    requires
        orderly(s, next),
        next >= 0,
        s2.l0.len() == 0,
        0 <= n <= s.levels.len(),
        numbered(new, next),
        views_run(new),
        forall|i: int| 0 <= i < new.len() ==> sound_table(#[trigger] new[i]),
        s2.tables == compact::stored(s.tables, new).remove_keys(files.to_set()),
        s2.levels == tiered::output_tier(compact::ids_of(new)) + s.levels.skip(n),
        forall|x: usize| #[trigger]
            files.contains(x) ==> exists|i: int|
                0 <= i < n && (#[trigger] s.levels[i]).1.contains(x),
    ensures
        orderly(s2, next + new.len()),
{
    let m = compact::stored(s.tables, new);
    let output = compact::ids_of(new);
    let first = tiered::output_tier(output);
    let k = first.len() as int;
    lemma_stored_lookup(s.tables, new, next);
    // The numbers of the older tiers stay known, and those of the output become known.
    assert forall|j: int, a: int| n <= j < s.levels.len() && 0 <= a < s.levels[j].1.len() implies {
        let x = #[trigger] s.levels[j].1[a];
        &&& x < next
        &&& s2.tables.dom().contains(x)
        &&& s2.tables[x] == m[x]
        &&& m[x] == s.tables[x]
    } by {
        let x = s.levels[j].1[a];
        assert(level_orderly(s, j));
        assert(s.tables.dom().contains(x));
        assert(s.levels[j].1.contains(x));
        if files.contains(x) {
            let i = choose|i: int| 0 <= i < n && (#[trigger] s.levels[i]).1.contains(x);
            lemma_apart(s, next, i, j, x);
        }
        assert(!files.to_set().contains(x));
    }
    assert forall|a: int| 0 <= a < output.len() implies {
        let x = #[trigger] output[a];
        &&& x == next + a
        &&& s2.tables.dom().contains(x)
        &&& s2.tables[x] == m[x]
        &&& m[x] == new[a]
    } by {
        let x = output[a];
        assert(new[a].id == x);
        if files.contains(x) {
            let i = choose|i: int| 0 <= i < n && (#[trigger] s.levels[i]).1.contains(x);
            let c = choose|c: int| 0 <= c < s.levels[i].1.len() && s.levels[i].1[c] == x;
            assert(level_orderly(s, i));
            assert(s.tables.dom().contains(s.levels[i].1[c]));
        }
        assert(!files.to_set().contains(x));
    }
    assert forall|id: usize| #[trigger] s2.tables.dom().contains(id) implies id < next + new.len()
        && sound_table(s2.tables[id]) by {
        assert(m.dom().contains(id));
        if id < next {
            assert(s.tables.dom().contains(id));
        } else {
            assert(!s.tables.dom().contains(id));
            assert(new[id - next].id == id);
        }
    }
    assert forall|i: int| 0 <= i < s2.levels.len() implies #[trigger] level_orderly(s2, i) by {
        let list = s2.levels[i].1;
        if i < k {
            assert(list == output);
            assert forall|a: int| 0 <= a < list.len() implies #[trigger] leveled::spans(
                s2.tables,
                list[a],
            ) by {
                assert(s2.tables[output[a]] == new[a]);
            }
            assert forall|a: int, c: int| 0 <= a < c < list.len() implies leveled::ends_before(
                s2.tables,
                #[trigger] list[a],
                #[trigger] list[c],
            ) by {
                assert(s2.tables[output[a]] == new[a] && s2.tables[output[c]] == new[c]);
            }
            assert forall|a: int| 0 <= a < list.len() implies s2.tables.dom().contains(
                #[trigger] list[a],
            ) by {
                assert(s2.tables.dom().contains(output[a]));
            }
        } else {
            let j = n + (i - k);
            assert(s2.levels[i] == s.levels[j]);
            assert(level_orderly(s, j));
            assert(agree(s.tables, s2.tables, list)) by {
                assert forall|a: int| 0 <= a < list.len() implies s.tables[#[trigger] list[a]]
                    == s2.tables[list[a]] by {
                    assert(s2.tables[s.levels[j].1[a]] == m[s.levels[j].1[a]]);
                }
            }
            lemma_run_frame(s.tables, s2.tables, list);
            assert forall|a: int| 0 <= a < list.len() implies s2.tables.dom().contains(
                #[trigger] list[a],
            ) by {
                assert(s2.tables.dom().contains(s.levels[j].1[a]));
            }
        }
    }
    assert forall|i: int, j: int|
        0 <= i < s2.levels.len() && 0 <= j < s2.levels.len() && i != j implies disjoint(
        (#[trigger] s2.levels[i]).1,
        (#[trigger] s2.levels[j]).1,
    ) by {
        let a = s2.levels[i].1;
        let b = s2.levels[j].1;
        assert forall|c: int| 0 <= c < a.len() implies !b.contains(#[trigger] a[c]) by {
            let x = a[c];
            if b.contains(x) {
                let d = choose|d: int| 0 <= d < b.len() && b[d] == x;
                if i < k {
                    assert(output[c] == x);
                    assert(s2.levels[j] == s.levels[n + (j - k)]);
                    assert(s.levels[n + (j - k)].1[d] < next);
                } else if j < k {
                    assert(output[d] == x);
                    assert(s2.levels[i] == s.levels[n + (i - k)]);
                    assert(s.levels[n + (i - k)].1[c] < next);
                } else {
                    assert(s2.levels[i] == s.levels[n + (i - k)]);
                    assert(s2.levels[j] == s.levels[n + (j - k)]);
                    assert(s.levels[n + (i - k)].1.contains(x));
                    lemma_apart(s, next, n + (i - k), n + (j - k), x);
                }
            }
        }
    }
}

/// The tables of tiers are in the tiers.
pub(crate) proof fn lemma_tier_files(tiers: Seq<(usize, Seq<usize>)>, x: usize)
    requires
        tiered::tier_files(tiers).contains(x),
    ensures
        exists|i: int| 0 <= i < tiers.len() && (#[trigger] tiers[i]).1.contains(x),
    decreases tiers.len(),
{
    let all = tiered::tier_files(tiers);
    let a = choose|a: int| 0 <= a < all.len() && all[a] == x;
    if tiers.len() > 0 {
        let rest = tiers.drop_first();
        let here = tiers[0].1;
        if a < here.len() {
            assert(here[a] == x);
            assert(tiers[0].1.contains(x));
        } else {
            assert(tiered::tier_files(rest)[a - here.len()] == x);
            lemma_tier_files(rest, x);
            let i = choose|i: int| 0 <= i < rest.len() && (#[trigger] rest[i]).1.contains(x);
            assert(tiers[i + 1].1.contains(x));
        }
    }
}

} // verus!
