//! Reads through all tables, which compaction does not change.

use vstd::prelude::*;

use super::gc;
use super::gc::{Plan, Seen};
use super::ids;
use super::leveled;
use super::leveled::LeveledCompactionOptions;
use super::order;
use super::simple_leveled;
use super::simple_leveled::SimpleLeveledCompactionOptions;
use super::tiered;
use super::tiered::TieredCompactionOptions;
use super::{LevelTaskView, TaskView};
use crate::compact;
use crate::error::StorageError;
use crate::iterators::concat_iterator;
use crate::iterators::merge_iterator;
use crate::iterators::Stream;
use crate::key;
use crate::key::Entry;
use crate::lsm_storage::StateView;
use crate::snapshot;
use crate::table::iterator as table_iterator;
use crate::table::TableView;

verus! {

/// What the tables of L0 and the levels hand out, the newest first.
pub open spec fn layers(s: StateView) -> Seq<Stream> {
    compact::table_streams(compact::tables_of(s, s.l0)) + compact::tier_streams(s, s.levels)
}

/// The value of a key at time `ts` in all tables together.
pub open spec fn read(s: StateView, k: Seq<u8>, ts: u64) -> Option<Seq<u8>> {
    snapshot::visible(merge_iterator::merged(layers(s)).entries, k, ts)
}

/// The newer one of two versions of a key, the first one on a tie.
spec fn newer(a: Option<Entry>, b: Option<Entry>) -> Option<Entry> {
    if a is None || b is Some && (a->0).key.ts < (b->0).key.ts {
        b
    } else {
        a
    }
}

/// The newest version of a key up to `ts` in streams.
spec fn best(ss: Seq<Stream>, k: Seq<u8>, ts: u64) -> Option<Entry>
    decreases ss.len(),
{
    if ss.len() == 0 {
        None
    } else {
        newer(best(ss.drop_last(), k, ts), snapshot::newest(ss.last().entries, k, ts))
    }
}

/// The value of a version.
spec fn shown(e: Option<Entry>) -> Option<Seq<u8>> {
    match e {
        Some(e) => if e.value.len() == 0 {
            None
        } else {
            Some(e.value)
        },
        None => None,
    }
}

proof fn lemma_best_concat(a: Seq<Stream>, b: Seq<Stream>, k: Seq<u8>, ts: u64)
    ensures
        best(a + b, k, ts) == newer(best(a, k, ts), best(b, k, ts)),
    decreases b.len(),
{
    if b.len() == 0 {
        assert(a + b =~= a);
    } else {
        assert((a + b).drop_last() =~= a + b.drop_last());
        assert((a + b).last() == b.last());
        lemma_best_concat(a, b.drop_last(), k, ts);
    }
}

/// The entry is a version of the key up to `ts` in stream `i`.
spec fn version_in(ss: Seq<Stream>, i: int, x: Entry, k: Seq<u8>, ts: u64) -> bool {
    0 <= i < ss.len() && ss[i].entries.contains(x) && x.key.key == k && x.key.ts <= ts
}

/// No version is newer than the best one, and in the streams before it all are older.
proof fn lemma_best(ss: Seq<Stream>, k: Seq<u8>, ts: u64)
    requires
        merge_iterator::sound(ss),
    ensures
        match best(ss, k, ts) {
            None => forall|i: int, x: Entry| !(#[trigger] version_in(ss, i, x, k, ts)),
            Some(e) => exists|i: int| #[trigger]
                version_in(ss, i, e, k, ts) && forall|j: int, x: Entry| #[trigger]
                    version_in(ss, j, x, k, ts) ==> x.key.ts <= e.key.ts && (j < i ==> x.key.ts
                        < e.key.ts),
        },
    decreases ss.len(),
{
    if ss.len() > 0 {
        let init = ss.drop_last();
        let n = ss.len() - 1;
        assert forall|i: int| 0 <= i < init.len() implies #[trigger] merge_iterator::sound_stream(
            init[i],
        ) by {
            assert(merge_iterator::sound_stream(ss[i]));
        }
        lemma_best(init, k, ts);
        assert(merge_iterator::sound_stream(ss[n]));
        let es = ss[n].entries;
        let a = best(init, k, ts);
        let b = snapshot::newest(es, k, ts);
        snapshot::lemma_newest_member(es, k, ts);
        assert forall|x: Entry| #[trigger] version_in(ss, n, x, k, ts) implies b is Some
            && x.key.ts <= (b->0).key.ts by {
            let i = choose|i: int| 0 <= i < es.len() && es[i] == x;
            snapshot::lemma_newest_is_newest(es, k, ts, i);
        }
        assert forall|j: int, x: Entry| j < n && #[trigger] version_in(ss, j, x, k, ts) implies
            version_in(init, j, x, k, ts) by {}
        if best(ss, k, ts) is Some {
            if best(ss, k, ts) == a && !(b is Some && (a is None || (a->0).key.ts < (b->0).key.ts)) {
                let e = a->0;
                let i = choose|i: int| #[trigger]
                    version_in(init, i, e, k, ts) && forall|j: int, x: Entry| #[trigger]
                        version_in(init, j, x, k, ts) ==> x.key.ts <= e.key.ts && (j < i
                            ==> x.key.ts < e.key.ts);
                assert(version_in(ss, i, e, k, ts));
            } else {
                let e = b->0;
                assert(version_in(ss, n, e, k, ts));
                if a is Some {
                    let i = choose|i: int| #[trigger]
                        version_in(init, i, a->0, k, ts) && forall|j: int, x: Entry| #[trigger]
                            version_in(init, j, x, k, ts) ==> x.key.ts <= (a->0).key.ts && (j < i
                                ==> x.key.ts < (a->0).key.ts);
                    assert(version_in(init, i, a->0, k, ts));
                }
            }
        }
    }
}

/// In sorted entries there is one entry with a key and a time.
proof fn lemma_one_version(es: Seq<Entry>, x: Entry, y: Entry)
    requires
        key::sorted(es),
        es.contains(x),
        es.contains(y),
        x.key == y.key,
    ensures
        x == y,
{
    let i = choose|i: int| 0 <= i < es.len() && es[i] == x;
    let j = choose|j: int| 0 <= j < es.len() && es[j] == y;
    key::lemma_bytes_lt_irreflexive(x.key.key);
    if i < j {
        assert(key::key_lt(es[i].key, es[j].key));
    } else if j < i {
        assert(key::key_lt(es[j].key, es[i].key));
    }
}

/// Merged streams have the best version.
proof fn lemma_best_merged(ss: Seq<Stream>, k: Seq<u8>, ts: u64)
    requires
        merge_iterator::sound(ss),
    ensures
        snapshot::newest(merge_iterator::merged(ss).entries, k, ts) == best(ss, k, ts),
{
    let es = merge_iterator::merged(ss).entries;
    let m = snapshot::newest(es, k, ts);
    lemma_best(ss, k, ts);
    merge_iterator::lemma_merged_sound(ss);
    snapshot::lemma_newest_member(es, k, ts);
    if m is Some {
        let x = m->0;
        let j = choose|j: int| merge_iterator::first_with(ss, x, j);
        assert(merge_iterator::first_with(ss, x, j));
        assert(version_in(ss, j, x, k, ts));
    }
    if best(ss, k, ts) is Some {
        let e = best(ss, k, ts)->0;
        let i = choose|i: int| #[trigger]
            version_in(ss, i, e, k, ts) && forall|j: int, x: Entry| #[trigger]
                version_in(ss, j, x, k, ts) ==> x.key.ts <= e.key.ts && (j < i ==> x.key.ts
                    < e.key.ts);
        assert(version_in(ss, i, e, k, ts));
        assert(merge_iterator::first_with(ss, e, i)) by {
            assert forall|j: int| 0 <= j < i implies !merge_iterator::has_key(
                #[trigger] ss[j],
                e.key,
            ) by {
                if merge_iterator::has_key(ss[j], e.key) {
                    let h = choose|h: int|
                        0 <= h < ss[j].entries.len() && #[trigger] ss[j].entries[h].key == e.key;
                    let x = ss[j].entries[h];
                    assert(ss[j].entries.contains(x));
                    assert(version_in(ss, j, x, k, ts));
                }
            }
        }
        assert(es.contains(e));
        let c = choose|c: int| 0 <= c < es.len() && es[c] == e;
        snapshot::lemma_newest_is_newest(es, k, ts, c);
        let x = m->0;
        let j = choose|j: int| merge_iterator::first_with(ss, x, j);
        assert(merge_iterator::first_with(ss, x, j));
        assert(version_in(ss, j, x, k, ts));
        lemma_one_version(es, e, x);
    }
}

/// Sorted entries with the same versions of a key have the same newest one.
proof fn lemma_same_versions(a: Seq<Entry>, b: Seq<Entry>, k: Seq<u8>, ts: u64)
    requires
        key::sorted(a),
        key::sorted(b),
        forall|x: Entry| x.key.key == k ==> (#[trigger] a.contains(x) <==> b.contains(x)),
    ensures
        snapshot::newest(a, k, ts) == snapshot::newest(b, k, ts),
{
    let p = snapshot::newest(a, k, ts);
    let q = snapshot::newest(b, k, ts);
    snapshot::lemma_newest_member(a, k, ts);
    snapshot::lemma_newest_member(b, k, ts);
    if p is Some {
        assert(a.contains(p->0));
        let i = choose|i: int| 0 <= i < b.len() && b[i] == p->0;
        snapshot::lemma_newest_is_newest(b, k, ts, i);
    }
    if q is Some {
        assert(a.contains(q->0));
        let i = choose|i: int| 0 <= i < a.len() && a[i] == q->0;
        snapshot::lemma_newest_is_newest(a, k, ts, i);
        lemma_one_version(a, p->0, q->0);
    }
}

/// A run holds the entries of its tables.
proof fn lemma_run_holds(ts: Seq<TableView>, i: int, j: int, x: Entry)
    requires
        0 <= i <= j < ts.len(),
        order::entries(ts[j]).contains(x),
    ensures
        concat_iterator::run_entries(ts, i).contains(x),
    decreases j - i,
{
    let es = order::entries(ts[i]);
    let rest = concat_iterator::run_entries(ts, i + 1);
    let all = concat_iterator::run_entries(ts, i);
    if i == j {
        let a = choose|a: int| 0 <= a < es.len() && es[a] == x;
        assert(all[a] == x);
    } else {
        lemma_run_holds(ts, i + 1, j, x);
        let a = choose|a: int| 0 <= a < rest.len() && rest[a] == x;
        assert(all[es.len() + a] == x);
    }
}

/// What the tables of a list hand out one behind the other.
pub open spec fn joined(s: StateView, list: Seq<usize>) -> Stream {
    concat_iterator::tables_from(compact::tables_of(s, list), 0)
}

/// The tables of a run hand out their entries, sorted.
proof fn lemma_joined(s: StateView, list: Seq<usize>)
    requires
        order::all_sound(s, list),
        leveled::is_run(s.tables, list),
    ensures
        compact::joined_tables(compact::tables_of(s, list)) == Ok::<Stream, StorageError>(
            joined(s, list),
        ),
        merge_iterator::sound_stream(joined(s, list)),
        forall|x: Entry| #[trigger]
            joined(s, list).entries.contains(x) <==> order::from_tables(s, list, x),
{
    let ts = compact::tables_of(s, list);
    order::lemma_joined_source(s, list);
    reveal(compact::joined_tables);
    assert forall|j: int| 0 <= j < ts.len() implies table_iterator::laid_out(#[trigger] ts[j])
        && ts[j].metas.len() > 0 by {
        assert(order::sound_table(s.tables[list[j]]));
    }
    concat_iterator::lemma_run_stream(ts, 0);
    assert forall|x: Entry| order::from_tables(s, list, x) implies #[trigger] joined(
        s,
        list,
    ).entries.contains(x) by {
        let i = choose|i: int|
            0 <= i < list.len() && order::entries(s.tables[#[trigger] list[i]]).contains(x);
        assert(ts[i] == s.tables[list[i]]);
        lemma_run_holds(ts, 0, i, x);
    }
}

/// The layers of L0.
spec fn l0_layers(s: StateView) -> Seq<Stream> {
    compact::table_streams(compact::tables_of(s, s.l0))
}

/// The layers of the levels.
spec fn level_layers(s: StateView) -> Seq<Stream> {
    compact::tier_streams(s, s.levels)
}

/// The layers are sorted and hold the entries of the tables.
proof fn lemma_layers(s: StateView, next: int)
    requires
        order::orderly(s, next),
    ensures
        merge_iterator::sound(layers(s)),
        merge_iterator::sound(l0_layers(s)),
        merge_iterator::sound(level_layers(s)),
        forall|i: int|
            0 <= i < s.l0.len() ==> (#[trigger] l0_layers(s)[i]).entries == order::entries(
                s.tables[s.l0[i]],
            ),
        forall|i: int, x: Entry|
            #![trigger level_layers(s)[i].entries.contains(x)]
            0 <= i < s.levels.len() ==> (level_layers(s)[i].entries.contains(x)
                <==> order::from_tables(s, s.levels[i].1, x)),
{
    assert forall|i: int| 0 <= i < s.l0.len() implies merge_iterator::sound_stream(
        #[trigger] l0_layers(s)[i],
    ) && l0_layers(s)[i].entries == order::entries(s.tables[s.l0[i]]) by {
        assert(s.tables.dom().contains(s.l0[i]));
        assert(order::sound_table(s.tables[s.l0[i]]));
        table_iterator::lemma_laid_out_stream(s.tables[s.l0[i]]);
    }
    assert forall|i: int| 0 <= i < s.levels.len() implies merge_iterator::sound_stream(
        #[trigger] level_layers(s)[i],
    ) && forall|x: Entry| #[trigger]
        level_layers(s)[i].entries.contains(x) <==> order::from_tables(s, s.levels[i].1, x) by {
        lemma_level_list(s, next, i);
        lemma_joined(s, s.levels[i].1);
    }
    assert forall|i: int| 0 <= i < layers(s).len() implies #[trigger] merge_iterator::sound_stream(
        layers(s)[i],
    ) by {
        if i < s.l0.len() {
            assert(layers(s)[i] == l0_layers(s)[i]);
        } else {
            assert(layers(s)[i] == level_layers(s)[i - s.l0.len()]);
        }
    }
    assert forall|i: int, x: Entry|
        #![trigger level_layers(s)[i].entries.contains(x)]
        0 <= i < s.levels.len() implies (level_layers(s)[i].entries.contains(x)
        <==> order::from_tables(s, s.levels[i].1, x)) by {
        assert(merge_iterator::sound_stream(level_layers(s)[i]));
    }
}

/// The tables of a level are sound and form a run.
proof fn lemma_level_list(s: StateView, next: int, i: int)
    requires
        order::orderly(s, next),
        0 <= i < s.levels.len(),
    ensures
        order::all_sound(s, s.levels[i].1),
        leveled::is_run(s.tables, s.levels[i].1),
{
    assert(order::level_orderly(s, i));
    assert forall|a: int| 0 <= a < s.levels[i].1.len() implies order::sound_table(
        s.tables[#[trigger] s.levels[i].1[a]],
    ) by {
        assert(s.tables.dom().contains(s.levels[i].1[a]));
    }
}

/// What is read is the best version of the layers.
proof fn lemma_read_best(s: StateView, next: int, k: Seq<u8>, ts: u64)
    requires
        order::orderly(s, next),
    ensures
        read(s, k, ts) == shown(
            newer(best(l0_layers(s), k, ts), best(level_layers(s), k, ts)),
        ),
{
    lemma_layers(s, next);
    lemma_best_merged(layers(s), k, ts);
    lemma_best_concat(l0_layers(s), level_layers(s), k, ts);
}

/// No version of a key is older than one in a later layer.
#[verifier::opaque]
pub open spec fn aged(s: StateView) -> bool {
    forall|i: int, j: int, x: Entry, y: Entry|
        0 <= i < j < layers(s).len() && #[trigger] layers(s)[i].entries.contains(x)
            && #[trigger] layers(s)[j].entries.contains(y) && x.key.key == y.key.key ==> x.key.ts
            >= y.key.ts
}

/// The table has a version of the key.
pub open spec fn holds(t: TableView, k: Seq<u8>) -> bool {
    exists|x: Entry| #[trigger] order::entries(t).contains(x) && x.key.key == k
}

/// A table of the list has a version of the key.
pub open spec fn list_holds(s: StateView, list: Seq<usize>, k: Seq<u8>) -> bool {
    exists|id: usize| #[trigger] list.contains(id) && holds(s.tables[id], k)
}

/// No table of the list that is not in `files` has a version of the key.
pub open spec fn others_lack(
    s: StateView,
    list: Seq<usize>,
    files: Seq<usize>,
    k: Seq<u8>,
) -> bool {
    forall|id: usize| #[trigger] list.contains(id) && !files.contains(id) ==> !holds(s.tables[id], k)
}

/// A task takes all versions of a key that stand in its way: where an upper table has the key, no
/// other table from there down to the lower level has it, and where a lower table has the key, no
/// other table of the lower level has it.
pub open spec fn takes_whole(s: StateView, t: LevelTaskView, k: Seq<u8>) -> bool {
    let files = t.upper + t.lower;
    let first = match t.upper_level {
        Some(u) => u - 1,
        None => 0,
    };
    &&& list_holds(s, t.upper, k) ==> forall|i: int|
        first <= i < t.lower_level ==> others_lack(s, (#[trigger] s.levels[i]).1, files, k)
    &&& list_holds(s, t.lower, k) ==> others_lack(s, s.levels[t.lower_level - 1].1, files, k)
}

/// An entry of a table in the list.
spec fn held(s: StateView, list: Seq<usize>, x: Entry) -> bool {
    exists|id: usize| #[trigger] list.contains(id) && order::entries(s.tables[id]).contains(x)
}

proof fn lemma_held(s: StateView, list: Seq<usize>, x: Entry)
    ensures
        held(s, list, x) <==> order::from_tables(s, list, x),
{
    if held(s, list, x) {
        let id = choose|id: usize| #[trigger]
            list.contains(id) && order::entries(s.tables[id]).contains(x);
        let i = choose|i: int| 0 <= i < list.len() && list[i] == id;
        assert(order::entries(s.tables[list[i]]).contains(x));
    }
    if order::from_tables(s, list, x) {
        let i = choose|i: int|
            0 <= i < list.len() && order::entries(s.tables[#[trigger] list[i]]).contains(x);
        assert(list.contains(list[i]));
    }
}

/// The tables of a task were replaced by new ones, which are in the lower level.
spec fn replaces(
    s: StateView,
    s2: StateView,
    t: LevelTaskView,
    new: Seq<TableView>,
    next: int,
) -> bool {
    &&& order::orderly(s, next)
    &&& order::orderly(s2, next + new.len())
    &&& order::numbered(new, next)
    &&& 1 <= t.lower_level <= s.levels.len()
    &&& match t.upper_level {
        Some(u) => {
            &&& u >= 1
            &&& u + 1 == t.lower_level
            &&& s2.l0 == s.l0
            &&& forall|id: usize| #[trigger]
                t.upper.contains(id) ==> s.levels[u - 1].1.contains(id)
        },
        None => t.upper == s.l0 && s2.l0.len() == 0,
    }
    &&& forall|id: usize| #[trigger]
        t.lower.contains(id) ==> s.levels[t.lower_level - 1].1.contains(id)
    &&& s2.levels.len() == s.levels.len()
    &&& forall|i: int, id: usize|
        0 <= i < s.levels.len() ==> (#[trigger] s2.levels[i].1.contains(id) <==> {
            ||| s.levels[i].1.contains(id) && !(t.upper + t.lower).contains(id)
            ||| i == t.lower_level - 1 && compact::ids_of(new).contains(id)
        })
    &&& forall|id: usize|
        id < next && #[trigger] s2.tables.dom().contains(id) ==> s2.tables[id] == s.tables[id]
    &&& forall|i: int| 0 <= i < new.len() ==> s2.tables[(#[trigger] new[i]).id] == new[i]
}

/// Without versions of a key there is no newest one.
proof fn lemma_none(es: Seq<Entry>, k: Seq<u8>, ts: u64)
    requires
        forall|x: Entry| #[trigger] es.contains(x) ==> x.key.key != k,
    ensures
        snapshot::newest(es, k, ts) is None,
{
    snapshot::lemma_newest_member(es, k, ts);
}

/// Streams without versions of a key have no best one.
proof fn lemma_best_none(ss: Seq<Stream>, k: Seq<u8>, ts: u64)
    requires
        forall|i: int, x: Entry|
            0 <= i < ss.len() && #[trigger] ss[i].entries.contains(x) ==> x.key.key != k,
    ensures
        best(ss, k, ts) is None,
    decreases ss.len(),
{
    if ss.len() > 0 {
        let init = ss.drop_last();
        assert forall|i: int, x: Entry|
            0 <= i < init.len() && #[trigger] init[i].entries.contains(x) implies x.key.key != k by {
            assert(ss[i].entries.contains(x));
        }
        lemma_best_none(init, k, ts);
        let n = ss.len() - 1;
        assert forall|x: Entry| #[trigger] ss.last().entries.contains(x) implies x.key.key != k by {
            assert(ss[n].entries.contains(x));
        }
        lemma_none(ss.last().entries, k, ts);
    }
}

/// Streams with the same newest versions have the same best one.
proof fn lemma_best_same(a: Seq<Stream>, b: Seq<Stream>, k: Seq<u8>, ts: u64)
    requires
        a.len() == b.len(),
        forall|i: int|
            0 <= i < a.len() ==> snapshot::newest((#[trigger] a[i]).entries, k, ts)
                == snapshot::newest(b[i].entries, k, ts),
    ensures
        best(a, k, ts) == best(b, k, ts),
    decreases a.len(),
{
    if a.len() > 0 {
        let n = a.len() - 1;
        assert(snapshot::newest(a[n].entries, k, ts) == snapshot::newest(b[n].entries, k, ts));
        assert forall|i: int| 0 <= i < a.drop_last().len() implies snapshot::newest(
            (#[trigger] a.drop_last()[i]).entries,
            k,
            ts,
        ) == snapshot::newest(b.drop_last()[i].entries, k, ts) by {
            assert(a[i] == a.drop_last()[i]);
        }
        lemma_best_same(a.drop_last(), b.drop_last(), k, ts);
    }
}

/// A level whose tables in the task lack a key, and that gets no table with it, has the same newest
/// version of it as before.
proof fn lemma_layer_same(
    s: StateView,
    s2: StateView,
    t: LevelTaskView,
    new: Seq<TableView>,
    next: int,
    i: int,
    k: Seq<u8>,
    ts: u64,
)
    requires
        replaces(s, s2, t, new, next),
        0 <= i < s.levels.len(),
        forall|id: usize| #[trigger]
            s.levels[i].1.contains(id) && (t.upper + t.lower).contains(id) ==> !holds(
                s.tables[id],
                k,
            ),
        i == t.lower_level - 1 ==> forall|j: int|
            0 <= j < new.len() ==> !holds(#[trigger] new[j], k),
    ensures
        snapshot::newest(level_layers(s)[i].entries, k, ts) == snapshot::newest(
            level_layers(s2)[i].entries,
            k,
            ts,
        ),
{
    let a = level_layers(s)[i].entries;
    let b = level_layers(s2)[i].entries;
    lemma_layers(s, next);
    lemma_layers(s2, next + new.len());
    assert(merge_iterator::sound_stream(level_layers(s)[i]));
    assert(merge_iterator::sound_stream(level_layers(s2)[i]));
    assert forall|x: Entry| x.key.key == k implies (#[trigger] a.contains(x) <==> b.contains(x)) by {
        lemma_held(s, s.levels[i].1, x);
        lemma_held(s2, s2.levels[i].1, x);
        assert(level_layers(s)[i].entries.contains(x) <==> held(s, s.levels[i].1, x));
        assert(level_layers(s2)[i].entries.contains(x) <==> held(s2, s2.levels[i].1, x));
        if held(s, s.levels[i].1, x) {
            let id = choose|id: usize| #[trigger]
                s.levels[i].1.contains(id) && order::entries(s.tables[id]).contains(x);
            assert(holds(s.tables[id], k));
            assert(s2.levels[i].1.contains(id));
            lemma_known(s, next, i, id);
            lemma_known(s2, next + new.len(), i, id);
        }
        if held(s2, s2.levels[i].1, x) {
            let id = choose|id: usize| #[trigger]
                s2.levels[i].1.contains(id) && order::entries(s2.tables[id]).contains(x);
            lemma_known(s2, next + new.len(), i, id);
            if s.levels[i].1.contains(id) && !(t.upper + t.lower).contains(id) {
                lemma_known(s, next, i, id);
            } else {
                let j = choose|j: int|
                    0 <= j < compact::ids_of(new).len() && compact::ids_of(new)[j] == id;
                assert(new[j].id == id);
                assert(holds(new[j], k));
            }
        }
    }
    lemma_same_versions(a, b, k, ts);
}

/// The tables of a level are known and have numbers before the next one.
proof fn lemma_known(s: StateView, next: int, i: int, id: usize)
    requires
        order::orderly(s, next),
        0 <= i < s.levels.len(),
        s.levels[i].1.contains(id),
    ensures
        s.tables.dom().contains(id),
        id < next,
{
    assert(order::level_orderly(s, i));
    let a = choose|a: int| 0 <= a < s.levels[i].1.len() && s.levels[i].1[a] == id;
    assert(s.tables.dom().contains(s.levels[i].1[a]));
}

/// A level in which only the tables of a run have a key has their newest version of it.
proof fn lemma_layer_part(
    s: StateView,
    next: int,
    i: int,
    part: Seq<usize>,
    k: Seq<u8>,
    ts: u64,
)
    requires
        order::orderly(s, next),
        0 <= i < s.levels.len(),
        forall|id: usize| #[trigger] part.contains(id) ==> s.levels[i].1.contains(id),
        order::all_sound(s, part),
        leveled::is_run(s.tables, part),
        others_lack(s, s.levels[i].1, part, k),
    ensures
        snapshot::newest(level_layers(s)[i].entries, k, ts) == snapshot::newest(
            joined(s, part).entries,
            k,
            ts,
        ),
{
    let a = level_layers(s)[i].entries;
    let b = joined(s, part).entries;
    lemma_layers(s, next);
    lemma_joined(s, part);
    assert(merge_iterator::sound_stream(level_layers(s)[i]));
    assert forall|x: Entry| x.key.key == k implies (#[trigger] a.contains(x) <==> b.contains(x)) by {
        lemma_held(s, s.levels[i].1, x);
        lemma_held(s, part, x);
        assert(level_layers(s)[i].entries.contains(x) <==> held(s, s.levels[i].1, x));
        if held(s, s.levels[i].1, x) {
            let id = choose|id: usize| #[trigger]
                s.levels[i].1.contains(id) && order::entries(s.tables[id]).contains(x);
            assert(holds(s.tables[id], k));
            assert(part.contains(id));
        }
        if held(s, part, x) {
            let id = choose|id: usize| #[trigger]
                part.contains(id) && order::entries(s.tables[id]).contains(x);
            assert(s.levels[i].1.contains(id));
        }
    }
    lemma_same_versions(a, b, k, ts);
}

/// The entries of tables are those of one of them.
spec fn in_tables(ts: Seq<TableView>, x: Entry) -> bool {
    exists|j: int| 0 <= j < ts.len() && order::entries(#[trigger] ts[j]).contains(x)
}

/// The tables that a compaction writes hold what it keeps.
proof fn lemma_new_entries(p: Plan, src: Stream, next: int)
    requires
        merge_iterator::sound_stream(src),
        order::storable(p.output(src)),
    ensures
        forall|x: Entry| #[trigger]
            p.rules.kept(src.entries, Seen::nothing()).contains(x) <==> in_tables(
                compact::tables_from(p.output(src), next),
                x,
            ),
{
    let ts = compact::tables_from(p.output(src), next);
    let kept = p.rules.kept(src.entries, Seen::nothing());
    order::lemma_output_read_back(p, src, next);
    order::lemma_output_run(p, src, next);
    assert forall|j: int| 0 <= j < ts.len() implies table_iterator::laid_out(#[trigger] ts[j])
        && ts[j].metas.len() > 0 by {
        assert(order::sound_table(ts[j]));
    }
    concat_iterator::lemma_run_stream(ts, 0);
    assert forall|x: Entry| #[trigger] kept.contains(x) <==> in_tables(ts, x) by {
        if kept.contains(x) {
            order::lemma_run_member(ts, 0, x);
        }
        if in_tables(ts, x) {
            let j = choose|j: int|
                0 <= j < ts.len() && order::entries(#[trigger] ts[j]).contains(x);
            lemma_run_holds(ts, 0, j, x);
        }
    }
}

/// A lower level whose other tables lack a key has what was kept of it.
proof fn lemma_layer_new(
    s: StateView,
    s2: StateView,
    t: LevelTaskView,
    new: Seq<TableView>,
    next: int,
    kept: Seq<Entry>,
    k: Seq<u8>,
    ts: u64,
)
    requires
        replaces(s, s2, t, new, next),
        others_lack(s, s.levels[t.lower_level - 1].1, t.upper + t.lower, k),
        key::sorted(kept),
        forall|x: Entry| #[trigger] kept.contains(x) <==> in_tables(new, x),
    ensures
        snapshot::newest(level_layers(s2)[t.lower_level - 1].entries, k, ts) == snapshot::newest(
            kept,
            k,
            ts,
        ),
{
    let i = t.lower_level - 1;
    let b = level_layers(s2)[i].entries;
    lemma_layers(s2, next + new.len());
    assert(merge_iterator::sound_stream(level_layers(s2)[i]));
    assert forall|x: Entry| x.key.key == k implies (#[trigger] kept.contains(x) <==> b.contains(
        x,
    )) by {
        lemma_held(s2, s2.levels[i].1, x);
        assert(level_layers(s2)[i].entries.contains(x) <==> held(s2, s2.levels[i].1, x));
        if kept.contains(x) {
            let j = choose|j: int|
                0 <= j < new.len() && order::entries(#[trigger] new[j]).contains(x);
            assert(compact::ids_of(new)[j] == new[j].id);
            assert(s2.levels[i].1.contains(new[j].id));
        }
        if held(s2, s2.levels[i].1, x) {
            let id = choose|id: usize| #[trigger]
                s2.levels[i].1.contains(id) && order::entries(s2.tables[id]).contains(x);
            lemma_known(s2, next + new.len(), i, id);
            if s.levels[i].1.contains(id) && !(t.upper + t.lower).contains(id) {
                lemma_known(s, next, i, id);
                assert(holds(s.tables[id], k));
            } else {
                let j = choose|j: int|
                    0 <= j < compact::ids_of(new).len() && compact::ids_of(new)[j] == id;
                assert(s2.tables[new[j].id] == new[j]);
                assert(order::entries(new[j]).contains(x));
            }
        }
    }
    lemma_same_versions(kept, b, k, ts);
}

/// The newest version of a key in two merged streams.
proof fn lemma_pair_best(a: Stream, b: Stream, k: Seq<u8>, ts: u64)
    requires
        merge_iterator::sound_stream(a),
        merge_iterator::sound_stream(b),
    ensures
        snapshot::newest(merge_iterator::merged(seq![a, b]).entries, k, ts) == newer(
            snapshot::newest(a.entries, k, ts),
            snapshot::newest(b.entries, k, ts),
        ),
{
    let ss = seq![a, b];
    assert forall|i: int| 0 <= i < ss.len() implies #[trigger] merge_iterator::sound_stream(
        ss[i],
    ) by {}
    lemma_best_merged(ss, k, ts);
    assert(ss.drop_last() =~= seq![a]);
    assert(seq![a].drop_last() =~= Seq::<Stream>::empty());
    assert(best(seq![a], k, ts) == newer(
        best(seq![a].drop_last(), k, ts),
        snapshot::newest(a.entries, k, ts),
    ));
}

/// The newest version of a key in what a task compacts.
proof fn lemma_source_best(s: StateView, next: int, t: LevelTaskView, k: Seq<u8>, ts: u64)
    requires
        order::orderly(s, next),
        order::all_sound(s, t.upper),
        order::all_sound(s, t.lower),
        leveled::is_run(s.tables, t.lower),
        t.upper_level is Some ==> leveled::is_run(s.tables, t.upper),
        t.upper_level is None ==> t.upper == s.l0,
    ensures
        compact::level_source(s, t) is Ok,
        snapshot::newest(compact::level_source(s, t)->Ok_0.entries, k, ts) == newer(
            if t.upper_level is Some {
                snapshot::newest(joined(s, t.upper).entries, k, ts)
            } else {
                best(l0_layers(s), k, ts)
            },
            snapshot::newest(joined(s, t.lower).entries, k, ts),
        ),
{
    lemma_joined(s, t.lower);
    let b = joined(s, t.lower);
    if t.upper_level is Some {
        lemma_joined(s, t.upper);
        lemma_pair_best(joined(s, t.upper), b, k, ts);
    } else {
        order::lemma_merged_source(s, t.upper);
        reveal(compact::merged_tables);
        reveal(compact::merged_source);
        lemma_layers(s, next);
        let a = merge_iterator::merged(l0_layers(s));
        lemma_best_merged(l0_layers(s), k, ts);
        lemma_pair_best(a, b, k, ts);
    }
}

/// Dropping the mark of a deleted key changes no read where no later layer has the key and no
/// earlier one has an older version.
proof fn lemma_dropped(
    front: Option<Entry>,
    before: Option<Entry>,
    after: Option<Entry>,
    back: Option<Entry>,
    to_bottom: bool,
)
    requires
        ({
            ||| after == before
            ||| to_bottom && after is None && before is Some && (before->0).value.len() == 0
        }),
        to_bottom ==> back is None,
        to_bottom && front is Some && before is Some ==> (front->0).key.ts >= (before->0).key.ts,
    ensures
        shown(newer(newer(front, before), back)) == shown(newer(newer(front, after), back)),
{
}

proof fn lemma_best_split(ss: Seq<Stream>, i: int, k: Seq<u8>, ts: u64)
    requires
        0 <= i < ss.len(),
    ensures
        best(ss, k, ts) == newer(
            newer(best(ss.take(i), k, ts), snapshot::newest(ss[i].entries, k, ts)),
            best(ss.skip(i + 1), k, ts),
        ),
{
    let upto = ss.take(i + 1);
    assert(upto + ss.skip(i + 1) =~= ss);
    lemma_best_concat(upto, ss.skip(i + 1), k, ts);
    assert(upto.drop_last() =~= ss.take(i));
    assert(upto.last() == ss[i]);
}

/// The tables of a task are in no level but its own two.
proof fn lemma_not_taken(
    s: StateView,
    s2: StateView,
    t: LevelTaskView,
    new: Seq<TableView>,
    next: int,
    i: int,
    id: usize,
)
    requires
        replaces(s, s2, t, new, next),
        0 <= i < s.levels.len(),
        s.levels[i].1.contains(id),
        (t.upper + t.lower).contains(id),
    ensures
        t.upper.contains(id) ==> t.upper_level == Some((i + 1) as usize),
        t.lower.contains(id) ==> i == t.lower_level - 1,
        t.upper.contains(id) || t.lower.contains(id),
{
    let files = t.upper + t.lower;
    let c = choose|c: int| 0 <= c < files.len() && files[c] == id;
    if c < t.upper.len() {
        assert(t.upper[c] == id);
    } else {
        assert(t.lower[c - t.upper.len()] == id);
    }
    let a = choose|a: int| 0 <= a < s.levels[i].1.len() && s.levels[i].1[a] == id;
    assert(order::level_orderly(s, i));
    if t.upper.contains(id) {
        match t.upper_level {
            Some(u) => {
                let j = u - 1;
                if j != i {
                    assert(order::disjoint(s.levels[i].1, s.levels[j].1));
                    assert(!s.levels[j].1.contains(s.levels[i].1[a]));
                }
            },
            None => {
                assert(!s.l0.contains(s.levels[i].1[a]));
            },
        }
    }
    if t.lower.contains(id) && i != t.lower_level - 1 {
        let j = t.lower_level - 1;
        assert(order::disjoint(s.levels[i].1, s.levels[j].1));
        assert(!s.levels[j].1.contains(s.levels[i].1[a]));
    }
}

/// A level that a task does not touch has the same newest versions as before.
proof fn lemma_layer_untouched(
    s: StateView,
    s2: StateView,
    t: LevelTaskView,
    new: Seq<TableView>,
    next: int,
    i: int,
    k: Seq<u8>,
    ts: u64,
)
    requires
        replaces(s, s2, t, new, next),
        0 <= i < s.levels.len(),
        i != t.lower_level - 1,
        t.upper_level matches Some(u) ==> i != u - 1,
    ensures
        snapshot::newest(level_layers(s)[i].entries, k, ts) == snapshot::newest(
            level_layers(s2)[i].entries,
            k,
            ts,
        ),
{
    assert forall|id: usize| #[trigger]
        s.levels[i].1.contains(id) && (t.upper + t.lower).contains(id) implies !holds(
        s.tables[id],
        k,
    ) by {
        lemma_not_taken(s, s2, t, new, next, i, id);
    }
    lemma_layer_same(s, s2, t, new, next, i, k, ts);
}

/// A level in which no table has a key has no version of it.
proof fn lemma_layer_none(s: StateView, next: int, i: int, k: Seq<u8>, ts: u64)
    requires
        order::orderly(s, next),
        0 <= i < s.levels.len(),
        !list_holds(s, s.levels[i].1, k),
    ensures
        snapshot::newest(level_layers(s)[i].entries, k, ts) is None,
        forall|x: Entry| #[trigger]
            level_layers(s)[i].entries.contains(x) ==> x.key.key != k,
{
    lemma_layers(s, next);
    let es = level_layers(s)[i].entries;
    assert forall|x: Entry| #[trigger] es.contains(x) implies x.key.key != k by {
        lemma_held(s, s.levels[i].1, x);
        assert(level_layers(s)[i].entries.contains(x) <==> held(s, s.levels[i].1, x));
        let id = choose|id: usize| #[trigger]
            s.levels[i].1.contains(id) && order::entries(s.tables[id]).contains(x);
        if x.key.key == k {
            assert(holds(s.tables[id], k));
        }
    }
    lemma_none(es, k, ts);
}

/// No version in a layer behind the first `n` is newer than the best one in these.
proof fn lemma_front_aged(
    s: StateView,
    next: int,
    n: int,
    j: int,
    y: Entry,
    k: Seq<u8>,
    ts: u64,
)
    requires
        order::orderly(s, next),
        aged(s),
        0 <= n <= j < layers(s).len(),
        layers(s)[j].entries.contains(y),
        y.key.key == k,
    ensures
        best(layers(s).take(n), k, ts) matches Some(x) ==> x.key.ts >= y.key.ts,
{
    reveal(aged);
    lemma_layers(s, next);
    let front = layers(s).take(n);
    assert forall|i: int| 0 <= i < front.len() implies #[trigger] merge_iterator::sound_stream(
        front[i],
    ) by {
        assert(merge_iterator::sound_stream(layers(s)[i]));
    }
    lemma_best(front, k, ts);
    if best(front, k, ts) is Some {
        let x = best(front, k, ts)->0;
        let i = choose|i: int| #[trigger]
            version_in(front, i, x, k, ts) && forall|j: int, z: Entry| #[trigger]
                version_in(front, j, z, k, ts) ==> z.key.ts <= x.key.ts && (j < i ==> z.key.ts
                    < x.key.ts);
        assert(version_in(front, i, x, k, ts));
        assert(layers(s)[i].entries.contains(x));
    }
}

/// The best version of the layers in front of a level.
proof fn lemma_front_best(s: StateView, i: int, k: Seq<u8>, ts: u64)
    requires
        0 <= i <= s.levels.len(),
    ensures
        best(layers(s).take(s.l0.len() + i), k, ts) == newer(
            best(l0_layers(s), k, ts),
            best(level_layers(s).take(i), k, ts),
        ),
{
    assert(layers(s).take(s.l0.len() + i) =~= l0_layers(s) + level_layers(s).take(i));
    lemma_best_concat(l0_layers(s), level_layers(s).take(i), k, ts);
}

/// No level from `level` on has the key, counted from 0.
pub open spec fn deepest(s: StateView, level: int, k: Seq<u8>) -> bool {
    forall|i: int| level <= i < s.levels.len() ==> !list_holds(s, (#[trigger] s.levels[i]).1, k)
}

/// What a task compacts.
spec fn task_source(s: StateView, t: LevelTaskView) -> Stream {
    compact::level_source(s, t)->Ok_0
}

/// A task was run as planned, and its output was installed.
spec fn ran(s: StateView, s2: StateView, t: LevelTaskView, p: Plan, next: int) -> bool {
    &&& replaces(s, s2, t, compact::tables_from(p.output(task_source(s, t)), next), next)
    &&& order::all_sound(s, t.upper)
    &&& order::all_sound(s, t.lower)
    &&& leveled::is_run(s.tables, t.lower)
    &&& t.upper_level is Some ==> leveled::is_run(s.tables, t.upper)
    &&& order::storable(p.output(task_source(s, t)))
    &&& p.rules.to_bottom == t.to_bottom
}

/// The lower level before and after a task.
#[verifier::spinoff_prover]
#[verifier::rlimit(40)]
proof fn lemma_low_values(
    s: StateView,
    s2: StateView,
    t: LevelTaskView,
    p: Plan,
    next: int,
    k: Seq<u8>,
    ts: u64,
)
    requires
        ran(s, s2, t, p, next),
        takes_whole(s, t, k),
    ensures
        ({
            let low = t.lower_level - 1;
            let src = task_source(s, t).entries;
            let kept = p.rules.kept(src, Seen::nothing());
            let before = snapshot::newest(level_layers(s)[low].entries, k, ts);
            let after = snapshot::newest(level_layers(s2)[low].entries, k, ts);
            &&& key::sorted(src)
            &&& if list_holds(s, t.upper, k) || list_holds(s, t.lower, k) {
                &&& before == snapshot::newest(joined(s, t.lower).entries, k, ts)
                &&& after == snapshot::newest(kept, k, ts)
            } else {
                &&& before == after
                &&& snapshot::newest(src, k, ts) is None
            }
        }),
{
    let low = t.lower_level - 1;
    let files = t.upper + t.lower;
    let source = task_source(s, t);
    let src = source.entries;
    let kept = p.rules.kept(src, Seen::nothing());
    let new = compact::tables_from(p.output(source), next);
    let list = s.levels[low].1;
    order::lemma_level_source_sound(s, t);
    lemma_new_entries(p, source, next);
    gc::lemma_kept_sorted(p.rules, src, Seen::nothing());
    if list_holds(s, t.upper, k) || list_holds(s, t.lower, k) {
        assert(others_lack(s, s.levels[low].1, files, k));
        assert(others_lack(s, list, t.lower, k)) by {
            assert forall|id: usize| #[trigger] list.contains(id) && !t.lower.contains(
                id,
            ) implies !holds(s.tables[id], k) by {
                if files.contains(id) {
                    lemma_not_taken(s, s2, t, new, next, low, id);
                }
            }
        }
        lemma_layer_part(s, next, low, t.lower, k, ts);
        lemma_layer_new(s, s2, t, new, next, kept, k, ts);
    } else {
        assert forall|x: Entry| #[trigger] src.contains(x) implies x.key.key != k by {
            let i = choose|i: int|
                0 <= i < files.len() && order::entries(s.tables[#[trigger] files[i]]).contains(x);
            if x.key.key == k {
                assert(holds(s.tables[files[i]], k));
                if i < t.upper.len() {
                    assert(t.upper.contains(t.upper[i]));
                } else {
                    assert(t.lower.contains(t.lower[i - t.upper.len()]));
                }
            }
        }
        lemma_none(src, k, ts);
        assert forall|j: int| 0 <= j < new.len() implies !holds(#[trigger] new[j], k) by {
            if holds(new[j], k) {
                let x = choose|x: Entry| #[trigger]
                    order::entries(new[j]).contains(x) && x.key.key == k;
                assert(in_tables(new, x));
                assert(kept.contains(x));
                assert(src.contains(x));
            }
        }
        assert forall|id: usize| #[trigger] list.contains(id) && files.contains(id) implies !holds(
            s.tables[id],
            k,
        ) by {
            lemma_not_taken(s, s2, t, new, next, low, id);
        }
        lemma_layer_same(s, s2, t, new, next, low, k, ts);
    }
}

/// The levels below those of a task are as before.
proof fn lemma_back_same(
    s: StateView,
    s2: StateView,
    t: LevelTaskView,
    new: Seq<TableView>,
    next: int,
    k: Seq<u8>,
    ts: u64,
)
    requires
        replaces(s, s2, t, new, next),
    ensures
        best(level_layers(s).skip(t.lower_level as int), k, ts) == best(
            level_layers(s2).skip(t.lower_level as int),
            k,
            ts,
        ),
        deepest(s, t.lower_level as int, k) ==> best(
            level_layers(s).skip(t.lower_level as int),
            k,
            ts,
        ) is None,
{
    let n = t.lower_level as int;
    let a = level_layers(s).skip(n);
    let b = level_layers(s2).skip(n);
    assert forall|i: int| 0 <= i < a.len() implies snapshot::newest(
        (#[trigger] a[i]).entries,
        k,
        ts,
    ) == snapshot::newest(b[i].entries, k, ts) by {
        lemma_layer_untouched(s, s2, t, new, next, n + i, k, ts);
    }
    lemma_best_same(a, b, k, ts);
    if deepest(s, n, k) {
        assert forall|i: int, x: Entry|
            0 <= i < a.len() && #[trigger] a[i].entries.contains(x) implies x.key.key != k by {
            assert(!list_holds(s, s.levels[n + i].1, k));
            lemma_layer_none(s, next, n + i, k, ts);
            assert(level_layers(s)[n + i].entries.contains(x));
        }
        lemma_best_none(a, k, ts);
    }
}

/// The levels above `n` are as before where a task does not touch them.
proof fn lemma_front_same(
    s: StateView,
    s2: StateView,
    t: LevelTaskView,
    new: Seq<TableView>,
    next: int,
    n: int,
    k: Seq<u8>,
    ts: u64,
)
    requires
        replaces(s, s2, t, new, next),
        0 <= n < t.lower_level,
        t.upper_level matches Some(u) ==> n < u,
    ensures
        best(level_layers(s).take(n), k, ts) == best(level_layers(s2).take(n), k, ts),
{
    let a = level_layers(s).take(n);
    let b = level_layers(s2).take(n);
    assert forall|i: int| 0 <= i < a.len() implies snapshot::newest(
        (#[trigger] a[i]).entries,
        k,
        ts,
    ) == snapshot::newest(b[i].entries, k, ts) by {
        lemma_layer_untouched(s, s2, t, new, next, i, k, ts);
    }
    lemma_best_same(a, b, k, ts);
}

/// What a task may drop is not missed: where it drops the marks of deleted keys, no level below it
/// has the key, and where a layer is in front of it, no version is older than one below it.
spec fn droppable(s: StateView, t: LevelTaskView, k: Seq<u8>) -> bool {
    t.to_bottom ==> {
        &&& deepest(s, t.lower_level as int, k)
        &&& aged(s) || t.upper_level is None && t.lower_level == 1
    }
}

/// No version in a table of a level is newer than the best one in front of the level.
proof fn lemma_table_aged(
    s: StateView,
    next: int,
    n: int,
    j: int,
    id: usize,
    y: Entry,
    k: Seq<u8>,
    ts: u64,
)
    requires
        order::orderly(s, next),
        aged(s),
        0 <= j < s.levels.len(),
        0 <= n <= s.l0.len() + j,
        s.levels[j].1.contains(id),
        order::entries(s.tables[id]).contains(y),
        y.key.key == k,
    ensures
        best(layers(s).take(n), k, ts) matches Some(x) ==> x.key.ts >= y.key.ts,
{
    lemma_layers(s, next);
    assert(held(s, s.levels[j].1, y));
    lemma_held(s, s.levels[j].1, y);
    assert(level_layers(s)[j].entries.contains(y));
    assert(layers(s)[s.l0.len() + j] == level_layers(s)[j]);
    lemma_front_aged(s, next, n, s.l0.len() + j, y, k, ts);
}

/// The newest version of a key in what a task compacts is in one of its tables.
proof fn lemma_source_member(s: StateView, t: LevelTaskView, k: Seq<u8>, ts: u64) -> (id: usize)
    requires
        order::all_sound(s, t.upper),
        order::all_sound(s, t.lower),
        leveled::is_run(s.tables, t.lower),
        t.upper_level is Some ==> leveled::is_run(s.tables, t.upper),
        snapshot::newest(task_source(s, t).entries, k, ts) is Some,
    ensures
        ({
            let y = snapshot::newest(task_source(s, t).entries, k, ts)->0;
            &&& y.key.key == k
            &&& order::entries(s.tables[id]).contains(y)
            &&& t.upper.contains(id) && list_holds(s, t.upper, k) || t.lower.contains(id)
        }),
{
    let src = task_source(s, t).entries;
    let files = t.upper + t.lower;
    order::lemma_level_source_sound(s, t);
    snapshot::lemma_newest_member(src, k, ts);
    let y = snapshot::newest(src, k, ts)->0;
    assert(src.contains(y));
    let i = choose|i: int|
        0 <= i < files.len() && order::entries(s.tables[#[trigger] files[i]]).contains(y);
    let id = files[i];
    assert(holds(s.tables[id], k));
    if i < t.upper.len() {
        assert(t.upper[i] == id);
        assert(t.upper.contains(id));
    } else {
        assert(t.lower[i - t.upper.len()] == id);
        assert(t.lower.contains(id));
    }
    id
}

/// The newest version of what a task compacts is not newer than the best one in front of it.
#[verifier::spinoff_prover]
#[verifier::rlimit(40)]
proof fn lemma_source_aged(
    s: StateView,
    s2: StateView,
    t: LevelTaskView,
    p: Plan,
    next: int,
    n: int,
    k: Seq<u8>,
    ts: u64,
)
    requires
        ran(s, s2, t, p, next),
        aged(s),
        0 <= n < s.l0.len() + t.lower_level,
        list_holds(s, t.upper, k) ==> t.upper_level is Some && n == s.l0.len() + t.lower_level - 2,
    ensures
        ({
            let x = best(layers(s).take(n), k, ts);
            let y = snapshot::newest(task_source(s, t).entries, k, ts);
            x is Some && y is Some ==> (x->0).key.ts >= (y->0).key.ts
        }),
{
    if snapshot::newest(task_source(s, t).entries, k, ts) is Some {
        let y = snapshot::newest(task_source(s, t).entries, k, ts)->0;
        let id = lemma_source_member(s, t, k, ts);
        if t.lower.contains(id) {
            lemma_table_aged(s, next, n, t.lower_level - 1, id, y, k, ts);
        } else {
            lemma_table_aged(s, next, n, t.lower_level - 2, id, y, k, ts);
        }
    }
}

/// Compacting L0 into a level changes no read.
#[verifier::spinoff_prover]
#[verifier::rlimit(40)]
proof fn lemma_l0_task_read(
    s: StateView,
    s2: StateView,
    t: LevelTaskView,
    p: Plan,
    next: int,
    k: Seq<u8>,
    ts: u64,
)
    requires
        ran(s, s2, t, p, next),
        t.upper_level is None,
        takes_whole(s, t, k),
        droppable(s, t, k),
        ts >= p.rules.watermark,
        !gc::filtered(p.rules.prefixes, k),
    ensures
        read(s2, k, ts) == read(s, k, ts),
{
    let low = t.lower_level - 1;
    let files = t.upper + t.lower;
    let src = task_source(s, t).entries;
    let new = compact::tables_from(p.output(task_source(s, t)), next);
    let sl = level_layers(s);
    let sl2 = level_layers(s2);
    lemma_read_best(s, next, k, ts);
    lemma_read_best(s2, next + new.len(), k, ts);
    lemma_best_split(sl, low, k, ts);
    lemma_best_split(sl2, low, k, ts);
    lemma_back_same(s, s2, t, new, next, k, ts);
    lemma_front_same(s, s2, t, new, next, low, k, ts);
    lemma_low_values(s, s2, t, p, next, k, ts);
    lemma_source_best(s, next, t, k, ts);
    gc::lemma_kept_newest(p.rules, src, Seen::nothing(), k, ts);
    assert(best(l0_layers(s2), k, ts) is None);
    let l0 = best(l0_layers(s), k, ts);
    let front = best(sl.take(low), k, ts);
    let back = best(sl.skip(low + 1), k, ts);
    let before = snapshot::newest(src, k, ts);
    let after = snapshot::newest(p.rules.kept(src, Seen::nothing()), k, ts);
    if list_holds(s, t.upper, k) {
        let f = sl.take(low);
        assert forall|i: int, x: Entry|
            0 <= i < f.len() && #[trigger] f[i].entries.contains(x) implies x.key.key != k by {
            assert(others_lack(s, s.levels[i].1, files, k));
            assert(!list_holds(s, s.levels[i].1, k)) by {
                if list_holds(s, s.levels[i].1, k) {
                    let id = choose|id: usize| #[trigger]
                        s.levels[i].1.contains(id) && holds(s.tables[id], k);
                    if files.contains(id) {
                        lemma_not_taken(s, s2, t, new, next, i, id);
                    }
                }
            }
            lemma_layer_none(s, next, i, k, ts);
            assert(level_layers(s)[i].entries.contains(x));
        }
        lemma_best_none(f, k, ts);
        lemma_dropped(None, before, after, back, t.to_bottom);
    } else {
        lemma_layers(s, next);
        assert forall|i: int, x: Entry|
            0 <= i < l0_layers(s).len() && #[trigger] l0_layers(s)[i].entries.contains(
                x,
            ) implies x.key.key != k by {
            if x.key.key == k {
                assert(l0_layers(s)[i].entries == order::entries(s.tables[s.l0[i]]));
                assert(holds(s.tables[s.l0[i]], k));
                assert(t.upper.contains(s.l0[i]));
            }
        }
        lemma_best_none(l0_layers(s), k, ts);
        if list_holds(s, t.lower, k) {
            if t.to_bottom && low > 0 {
                lemma_front_best(s, low, k, ts);
                lemma_source_aged(s, s2, t, p, next, s.l0.len() + low, k, ts);
            }
            lemma_dropped(front, before, after, back, t.to_bottom);
        }
    }
}

/// What is read, by the layers around two levels.
proof fn lemma_read_levels(s: StateView, next: int, low: int, k: Seq<u8>, ts: u64)
    requires
        order::orderly(s, next),
        1 <= low < s.levels.len(),
    ensures
        ({
            let sl = level_layers(s);
            let above = newer(best(l0_layers(s), k, ts), best(sl.take(low - 1), k, ts));
            let upper = snapshot::newest(sl[low - 1].entries, k, ts);
            let lower = snapshot::newest(sl[low].entries, k, ts);
            let back = best(sl.skip(low + 1), k, ts);
            read(s, k, ts) == shown(newer(newer(newer(above, upper), lower), back))
        }),
        best(layers(s).take(s.l0.len() + low - 1), k, ts) == newer(
            best(l0_layers(s), k, ts),
            best(level_layers(s).take(low - 1), k, ts),
        ),
        best(layers(s).take(s.l0.len() + low), k, ts) == newer(
            newer(best(l0_layers(s), k, ts), best(level_layers(s).take(low - 1), k, ts)),
            snapshot::newest(level_layers(s)[low - 1].entries, k, ts),
        ),
{
    let sl = level_layers(s);
    lemma_read_best(s, next, k, ts);
    lemma_best_split(sl, low, k, ts);
    assert(sl.take(low).drop_last() =~= sl.take(low - 1) && sl.take(low).last() == sl[low - 1]);
    lemma_front_best(s, low - 1, k, ts);
    lemma_front_best(s, low, k, ts);
}

/// Compacting tables of a level into the next one changes no read.
#[verifier::spinoff_prover]
#[verifier::rlimit(40)]
proof fn lemma_level_task_read(
    s: StateView,
    s2: StateView,
    t: LevelTaskView,
    p: Plan,
    next: int,
    k: Seq<u8>,
    ts: u64,
)
    requires
        ran(s, s2, t, p, next),
        t.upper_level is Some,
        takes_whole(s, t, k),
        droppable(s, t, k),
        ts >= p.rules.watermark,
        !gc::filtered(p.rules.prefixes, k),
    ensures
        read(s2, k, ts) == read(s, k, ts),
{
    let low = t.lower_level - 1;
    let up = low - 1;
    let files = t.upper + t.lower;
    let src = task_source(s, t).entries;
    let new = compact::tables_from(p.output(task_source(s, t)), next);
    let sl = level_layers(s);
    let sl2 = level_layers(s2);
    lemma_read_levels(s, next, low, k, ts);
    lemma_read_levels(s2, next + new.len(), low, k, ts);
    lemma_back_same(s, s2, t, new, next, k, ts);
    lemma_front_same(s, s2, t, new, next, up, k, ts);
    lemma_low_values(s, s2, t, p, next, k, ts);
    lemma_source_best(s, next, t, k, ts);
    gc::lemma_kept_newest(p.rules, src, Seen::nothing(), k, ts);
    lemma_l0_same(s, s2, t, new, next, k, ts);
    let l0 = best(l0_layers(s), k, ts);
    let above = best(sl.take(up), k, ts);
    let upper = snapshot::newest(sl[up].entries, k, ts);
    let upper2 = snapshot::newest(sl2[up].entries, k, ts);
    let back = best(sl.skip(low + 1), k, ts);
    let before = snapshot::newest(src, k, ts);
    let after = snapshot::newest(p.rules.kept(src, Seen::nothing()), k, ts);
    if list_holds(s, t.upper, k) {
        lemma_upper_whole(s, s2, t, new, next, k, ts);
        if t.to_bottom {
            lemma_source_aged(s, s2, t, p, next, s.l0.len() + up, k, ts);
        }
        lemma_dropped(newer(l0, above), before, after, back, t.to_bottom);
    } else {
        assert forall|id: usize| #[trigger]
            s.levels[up].1.contains(id) && files.contains(id) implies !holds(s.tables[id], k) by {
            lemma_not_taken(s, s2, t, new, next, up, id);
        }
        lemma_layer_same(s, s2, t, new, next, up, k, ts);
        assert(snapshot::newest(joined(s, t.upper).entries, k, ts) is None) by {
            lemma_joined(s, t.upper);
            assert forall|x: Entry| #[trigger] joined(s, t.upper).entries.contains(
                x,
            ) implies x.key.key != k by {
                lemma_held(s, t.upper, x);
                let id = choose|id: usize| #[trigger]
                    t.upper.contains(id) && order::entries(s.tables[id]).contains(x);
                if x.key.key == k {
                    assert(holds(s.tables[id], k));
                }
            }
            lemma_none(joined(s, t.upper).entries, k, ts);
        }
        if list_holds(s, t.lower, k) {
            if t.to_bottom {
                lemma_source_aged(s, s2, t, p, next, s.l0.len() + low, k, ts);
            }
            lemma_dropped(newer(newer(l0, above), upper), before, after, back, t.to_bottom);
        }
    }
}

/// L0 is as before where a task does not take it.
proof fn lemma_l0_same(
    s: StateView,
    s2: StateView,
    t: LevelTaskView,
    new: Seq<TableView>,
    next: int,
    k: Seq<u8>,
    ts: u64,
)
    requires
        replaces(s, s2, t, new, next),
        t.upper_level is Some,
    ensures
        best(l0_layers(s), k, ts) == best(l0_layers(s2), k, ts),
{
    lemma_layers(s, next);
    lemma_layers(s2, next + new.len());
    let a = l0_layers(s);
    let b = l0_layers(s2);
    assert forall|i: int| 0 <= i < a.len() implies snapshot::newest(
        (#[trigger] a[i]).entries,
        k,
        ts,
    ) == snapshot::newest(b[i].entries, k, ts) by {
        let id = s.l0[i];
        assert(s.tables.dom().contains(s.l0[i]));
        assert(s2.tables.dom().contains(s2.l0[i]));
        assert(l0_layers(s)[i].entries == order::entries(s.tables[s.l0[i]]));
        assert(l0_layers(s2)[i].entries == order::entries(s2.tables[s2.l0[i]]));
    }
    lemma_best_same(a, b, k, ts);
}

/// Where a task takes all tables of the upper level with a key, none is left there.
proof fn lemma_upper_whole(
    s: StateView,
    s2: StateView,
    t: LevelTaskView,
    new: Seq<TableView>,
    next: int,
    k: Seq<u8>,
    ts: u64,
)
    requires
        replaces(s, s2, t, new, next),
        t.upper_level is Some,
        order::all_sound(s, t.upper),
        leveled::is_run(s.tables, t.upper),
        takes_whole(s, t, k),
        list_holds(s, t.upper, k),
    ensures
        snapshot::newest(level_layers(s)[t.lower_level - 2].entries, k, ts) == snapshot::newest(
            joined(s, t.upper).entries,
            k,
            ts,
        ),
        snapshot::newest(level_layers(s2)[t.lower_level - 2].entries, k, ts) is None,
{
    let up = t.lower_level - 2;
    let files = t.upper + t.lower;
    let list = s.levels[up].1;
    assert(others_lack(s, s.levels[up].1, files, k));
    assert(others_lack(s, list, t.upper, k)) by {
        assert forall|id: usize| #[trigger] list.contains(id) && !t.upper.contains(
            id,
        ) implies !holds(s.tables[id], k) by {
            if files.contains(id) {
                lemma_not_taken(s, s2, t, new, next, up, id);
            }
        }
    }
    lemma_layer_part(s, next, up, t.upper, k, ts);
    assert(!list_holds(s2, s2.levels[up].1, k)) by {
        if list_holds(s2, s2.levels[up].1, k) {
            let id = choose|id: usize| #[trigger]
                s2.levels[up].1.contains(id) && holds(s2.tables[id], k);
            assert(s.levels[up].1.contains(id) && !files.contains(id));
            lemma_known(s, next, up, id);
            lemma_known(s2, next + new.len(), up, id);
        }
    }
    lemma_layer_none(s2, next + new.len(), up, k, ts);
}

/// How the lists of numbers change when a task is installed.
spec fn lists_replaced(
    s: StateView,
    s2: StateView,
    t: LevelTaskView,
    new: Seq<TableView>,
) -> bool {
    &&& s2.levels.len() == s.levels.len()
    &&& forall|i: int, id: usize|
        0 <= i < s.levels.len() && i != t.lower_level - 1 && !(t.upper_level is Some && i
            == t.upper_level->0 - 1) ==> (#[trigger] s2.levels[i].1.contains(id)
            <==> s.levels[i].1.contains(id))
    &&& t.upper_level matches Some(u) ==> forall|id: usize| #[trigger]
        s2.levels[u - 1].1.contains(id) <==> s.levels[u - 1].1.contains(id) && !t.upper.contains(id)
    &&& forall|id: usize| #[trigger]
        s2.levels[t.lower_level - 1].1.contains(id) <==> {
            ||| s.levels[t.lower_level - 1].1.contains(id) && !t.lower.contains(id)
            ||| compact::ids_of(new).contains(id)
        }
}

/// The tables of a task stand where it says.
spec fn placed(s: StateView, t: LevelTaskView) -> bool {
    &&& 1 <= t.lower_level <= s.levels.len()
    &&& match t.upper_level {
        Some(u) => {
            &&& u >= 1
            &&& u + 1 == t.lower_level
            &&& forall|id: usize| #[trigger]
                t.upper.contains(id) ==> s.levels[u - 1].1.contains(id)
        },
        None => t.upper == s.l0,
    }
    &&& forall|id: usize| #[trigger]
        t.lower.contains(id) ==> s.levels[t.lower_level - 1].1.contains(id)
}

/// A number that stands in two places is the same place.
proof fn lemma_one_place(s: StateView, next: int, i: int, j: int, id: usize)
    requires
        order::orderly(s, next),
        0 <= i < s.levels.len(),
        0 <= j < s.levels.len(),
        s.levels[i].1.contains(id),
    ensures
        s.levels[j].1.contains(id) ==> i == j,
        !s.l0.contains(id),
{
    let a = choose|a: int| 0 <= a < s.levels[i].1.len() && s.levels[i].1[a] == id;
    assert(order::level_orderly(s, i));
    assert(!s.l0.contains(s.levels[i].1[a]));
    if i != j {
        assert(order::disjoint(s.levels[i].1, s.levels[j].1));
        assert(!s.levels[j].1.contains(s.levels[i].1[a]));
    }
}

#[verifier::spinoff_prover]
#[verifier::rlimit(40)]
proof fn lemma_replaces(
    s: StateView,
    s2: StateView,
    next: int,
    t: LevelTaskView,
    new: Seq<TableView>,
)
    requires
        order::orderly(s, next),
        order::orderly(s2, next + new.len()),
        order::numbered(new, next),
        placed(s, t),
        if t.upper_level is Some {
            s2.l0 == s.l0
        } else {
            s2.l0.len() == 0
        },
        lists_replaced(s, s2, t, new),
        s2.tables == compact::stored(s.tables, new).remove_keys((t.upper + t.lower).to_set()),
    ensures
        replaces(s, s2, t, new, next),
{
    let files = t.upper + t.lower;
    order::lemma_stored_lookup(s.tables, new, next);
    assert forall|i: int, id: usize| 0 <= i < s.levels.len() implies (
    #[trigger] s2.levels[i].1.contains(id) <==> {
        ||| s.levels[i].1.contains(id) && !files.contains(id)
        ||| i == t.lower_level - 1 && compact::ids_of(new).contains(id)
    }) by {
        lemma_files(t, id);
        if s.levels[i].1.contains(id) {
            lemma_one_place(s, next, i, t.lower_level - 1, id);
            match t.upper_level {
                Some(u) => {
                    lemma_one_place(s, next, i, u - 1, id);
                },
                None => {},
            }
        }
    }
    assert forall|i: int| 0 <= i < new.len() implies s2.tables[(#[trigger] new[i]).id]
        == new[i] by {
        let id = new[i].id;
        if files.contains(id) {
            lemma_files(t, id);
            lemma_file_known(s, next, t, id);
        }
        assert(!files.to_set().contains(id));
    }
    assert forall|id: usize|
        id < next && #[trigger] s2.tables.dom().contains(id) implies s2.tables[id]
        == s.tables[id] by {
        assert(compact::stored(s.tables, new)[id] == s.tables[id]);
    }
}

proof fn lemma_files(t: LevelTaskView, id: usize)
    ensures
        (t.upper + t.lower).contains(id) <==> t.upper.contains(id) || t.lower.contains(id),
{
    let files = t.upper + t.lower;
    if files.contains(id) {
        let c = choose|c: int| 0 <= c < files.len() && files[c] == id;
        if c < t.upper.len() {
            assert(t.upper[c] == id);
        } else {
            assert(t.lower[c - t.upper.len()] == id);
        }
    }
    if t.upper.contains(id) {
        let c = choose|c: int| 0 <= c < t.upper.len() && t.upper[c] == id;
        assert(files[c] == id);
    }
    if t.lower.contains(id) {
        let c = choose|c: int| 0 <= c < t.lower.len() && t.lower[c] == id;
        assert(files[t.upper.len() + c] == id);
    }
}

/// The tables of a task are known.
proof fn lemma_file_known(s: StateView, next: int, t: LevelTaskView, id: usize)
    requires
        order::orderly(s, next),
        placed(s, t),
        t.upper.contains(id) || t.lower.contains(id),
    ensures
        s.tables.dom().contains(id),
        id < next,
        order::sound_table(s.tables[id]),
{
    if t.lower.contains(id) {
        lemma_known(s, next, t.lower_level - 1, id);
    } else {
        match t.upper_level {
            Some(u) => {
                lemma_known(s, next, u - 1, id);
            },
            None => {
                let c = choose|c: int| 0 <= c < s.l0.len() && s.l0[c] == id;
                assert(s.tables.dom().contains(s.l0[c]));
            },
        }
    }
}

/// The tables of a task are sound.
proof fn lemma_files_sound(s: StateView, next: int, t: LevelTaskView)
    requires
        order::orderly(s, next),
        placed(s, t),
    ensures
        order::all_sound(s, t.upper),
        order::all_sound(s, t.lower),
        s.knows(t.upper),
        s.knows(t.lower),
{
    assert forall|i: int| 0 <= i < t.upper.len() implies order::sound_table(
        s.tables[#[trigger] t.upper[i]],
    ) && s.tables.dom().contains(t.upper[i]) by {
        assert(t.upper.contains(t.upper[i]));
        lemma_file_known(s, next, t, t.upper[i]);
    }
    assert forall|i: int| 0 <= i < t.lower.len() implies order::sound_table(
        s.tables[#[trigger] t.lower[i]],
    ) && s.tables.dom().contains(t.lower[i]) by {
        assert(t.lower.contains(t.lower[i]));
        lemma_file_known(s, next, t, t.lower[i]);
    }
}

/// A task that was installed keeps what is read.
proof fn lemma_task_read(
    s: StateView,
    s2: StateView,
    t: LevelTaskView,
    p: Plan,
    next: int,
    k: Seq<u8>,
    ts: u64,
)
    requires
        ran(s, s2, t, p, next),
        takes_whole(s, t, k),
        droppable(s, t, k),
        ts >= p.rules.watermark,
        !gc::filtered(p.rules.prefixes, k),
    ensures
        read(s2, k, ts) == read(s, k, ts),
{
    if t.upper_level is Some {
        lemma_level_task_read(s, s2, t, p, next, k, ts);
    } else {
        lemma_l0_task_read(s, s2, t, p, next, k, ts);
    }
}

/// A task over whole levels takes all versions of every key.
proof fn lemma_whole_levels(s: StateView, t: LevelTaskView, k: Seq<u8>)
    requires
        placed(s, t),
        t.lower == s.levels[t.lower_level - 1].1,
        match t.upper_level {
            Some(u) => t.upper == s.levels[u - 1].1,
            None => t.lower_level == 1,
        },
    ensures
        takes_whole(s, t, k),
{
    let files = t.upper + t.lower;
    let first = match t.upper_level {
        Some(u) => u - 1,
        None => 0,
    };
    assert forall|i: int| first <= i < t.lower_level implies others_lack(
        s,
        (#[trigger] s.levels[i]).1,
        files,
        k,
    ) by {
        assert forall|id: usize| #[trigger] s.levels[i].1.contains(id) && !files.contains(
            id,
        ) implies !holds(s.tables[id], k) by {
            lemma_files(t, id);
        }
    }
}

/// Compacting whole levels changes no read at the watermark or later: the value of every key in all
/// tables together stays the same, unless the key has a prefix that is filtered out. Where the
/// output is the last level, no level below may have the key, and a level may not have a version
/// that is older than one below it.
pub proof fn lemma_simple_keeps_reads(
    s: StateView,
    next: int,
    o: SimpleLeveledCompactionOptions,
    p: Plan,
    k: Seq<u8>,
    ts: u64,
)
    requires
        order::orderly(s, next),
        next >= 0,
        simple_leveled::enough_levels(s, o),
        simple_leveled::simple_task(s, o) is Some,
        ({
            let t = simple_leveled::simple_task(s, o)->0;
            let out = p.output(compact::level_source(s, t)->Ok_0);
            &&& order::storable(out)
            &&& next + out.tables.len() <= usize::MAX
            &&& p.rules.to_bottom == t.to_bottom
            &&& t.to_bottom ==> deepest(s, t.lower_level as int, k)
            &&& t.to_bottom && t.upper_level is Some ==> aged(s)
        }),
        ts >= p.rules.watermark,
        !gc::filtered(p.rules.prefixes, k),
    ensures
        ({
            let t = simple_leveled::simple_task(s, o)->0;
            let out = p.output(compact::level_source(s, t)->Ok_0);
            let new = compact::tables_from(out, next);
            read(compact::installed(s, TaskView::Simple(t), new), k, ts) == read(s, k, ts)
        }),
{
    let t = simple_leveled::simple_task(s, o)->0;
    let out = p.output(compact::level_source(s, t)->Ok_0);
    let new = compact::tables_from(out, next);
    let s2 = compact::installed(s, TaskView::Simple(t), new);
    lemma_simple_ran(s, next, o, p);
    lemma_whole_levels(s, t, k);
    lemma_task_read(s, s2, t, p, next, k, ts);
}

#[verifier::spinoff_prover]
#[verifier::rlimit(40)]
proof fn lemma_simple_ran(
    s: StateView,
    next: int,
    o: SimpleLeveledCompactionOptions,
    p: Plan,
)
    requires
        order::orderly(s, next),
        next >= 0,
        simple_leveled::enough_levels(s, o),
        simple_leveled::simple_task(s, o) is Some,
        ({
            let t = simple_leveled::simple_task(s, o)->0;
            let out = p.output(compact::level_source(s, t)->Ok_0);
            &&& order::storable(out)
            &&& next + out.tables.len() <= usize::MAX
            &&& p.rules.to_bottom == t.to_bottom
        }),
    ensures
        ({
            let t = simple_leveled::simple_task(s, o)->0;
            let out = p.output(compact::level_source(s, t)->Ok_0);
            let new = compact::tables_from(out, next);
            &&& ran(s, compact::installed(s, TaskView::Simple(t), new), t, p, next)
            &&& placed(s, t)
            &&& t.lower == s.levels[t.lower_level - 1].1
            &&& match t.upper_level {
                Some(u) => t.upper == s.levels[u - 1].1,
                None => t.lower_level == 1,
            }
        }),
{
    let t = simple_leveled::simple_task(s, o)->0;
    let out = p.output(compact::level_source(s, t)->Ok_0);
    let new = compact::tables_from(out, next);
    let s2 = compact::installed(s, TaskView::Simple(t), new);
    assert(s.l0.no_duplicates());
    lemma_simple_lists(s, o, new);
    order::lemma_simple_keeps_order(s, next, o, p);
    lemma_files_sound(s, next, t);
    assert(order::numbered(new, next));
    lemma_level_list(s, next, t.lower_level - 1);
    match t.upper_level {
        Some(u) => {
            lemma_level_list(s, next, u - 1);
        },
        None => {},
    }
    lemma_replaces(s, s2, next, t, new);
}

/// Where the tables of a task of the simple controller stand, and what becomes of the lists.
proof fn lemma_simple_lists(s: StateView, o: SimpleLeveledCompactionOptions, new: Seq<TableView>)
    requires
        s.l0.no_duplicates(),
        simple_leveled::enough_levels(s, o),
        simple_leveled::simple_task(s, o) is Some,
    ensures
        ({
            let t = simple_leveled::simple_task(s, o)->0;
            let s2 = compact::installed(s, TaskView::Simple(t), new);
            &&& placed(s, t)
            &&& t.lower == s.levels[t.lower_level - 1].1
            &&& match t.upper_level {
                Some(u) => t.upper == s.levels[u - 1].1 && s2.l0 == s.l0,
                None => t.lower_level == 1 && s2.l0.len() == 0,
            }
            &&& lists_replaced(s, s2, t, new)
            &&& s2.tables == compact::stored(s.tables, new).remove_keys(
                (t.upper + t.lower).to_set(),
            )
        }),
{
    let t = simple_leveled::simple_task(s, o)->0;
    let s2 = compact::installed(s, TaskView::Simple(t), new);
    if !simple_leveled::l0_full(s, o) {
        simple_leveled::lemma_ratio_task(s, o, 1);
    } else {
        order::lemma_without_distinct(s.l0, s.l0.to_set());
        if s2.l0.len() > 0 {
            assert(s2.l0.contains(s2.l0[0]));
        }
    }
}

/// A full compaction changes no read at the watermark or later, unless the key has a prefix that is
/// filtered out. No level below L1 may have the key.
pub proof fn lemma_full_keeps_reads(s: StateView, next: int, p: Plan, k: Seq<u8>, ts: u64)
    requires
        order::orderly(s, next),
        next >= 0,
        s.levels.len() > 0,
        ({
            let out = p.output(compact::source(s, TaskView::Full(s.l0, s.levels[0].1))->Ok_0);
            order::storable(out) && next + out.tables.len() <= usize::MAX
        }),
        p.rules.to_bottom,
        deepest(s, 1, k),
        ts >= p.rules.watermark,
        !gc::filtered(p.rules.prefixes, k),
    ensures
        ({
            let l1 = s.levels[0].1;
            let out = p.output(compact::source(s, TaskView::Full(s.l0, l1))->Ok_0);
            let new = compact::tables_from(out, next);
            read(compact::fully_installed(s, s.l0, l1, new), k, ts) == read(s, k, ts)
        }),
{
    let l1 = s.levels[0].1;
    let t = full_task(s);
    let out = p.output(compact::source(s, TaskView::Full(s.l0, l1))->Ok_0);
    let new = compact::tables_from(out, next);
    let s2 = compact::fully_installed(s, s.l0, l1, new);
    lemma_full_ran(s, next, p);
    lemma_whole_levels(s, t, k);
    lemma_task_read(s, s2, t, p, next, k, ts);
}

/// A full compaction as one of L0 into L1.
spec fn full_task(s: StateView) -> LevelTaskView {
    LevelTaskView {
        upper_level: None,
        upper: s.l0,
        lower_level: 1,
        lower: s.levels[0].1,
        to_bottom: true,
    }
}

#[verifier::spinoff_prover]
#[verifier::rlimit(40)]
proof fn lemma_full_ran(s: StateView, next: int, p: Plan)
    requires
        order::orderly(s, next),
        next >= 0,
        s.levels.len() > 0,
        ({
            let out = p.output(compact::source(s, TaskView::Full(s.l0, s.levels[0].1))->Ok_0);
            order::storable(out) && next + out.tables.len() <= usize::MAX
        }),
        p.rules.to_bottom,
    ensures
        ({
            let l1 = s.levels[0].1;
            let out = p.output(compact::source(s, TaskView::Full(s.l0, l1))->Ok_0);
            let new = compact::tables_from(out, next);
            &&& ran(s, compact::fully_installed(s, s.l0, l1, new), full_task(s), p, next)
            &&& out == p.output(task_source(s, full_task(s)))
            &&& placed(s, full_task(s))
        }),
{
    let l1 = s.levels[0].1;
    let t = full_task(s);
    let files = t.upper + t.lower;
    let out = p.output(compact::source(s, TaskView::Full(s.l0, l1))->Ok_0);
    let new = compact::tables_from(out, next);
    let s2 = compact::fully_installed(s, s.l0, l1, new);
    lemma_files_sound(s, next, t);
    lemma_level_list(s, next, 0);
    order::lemma_level_source_sound(s, t);
    assert(compact::source(s, TaskView::Full(s.l0, l1)) == compact::level_source(s, t));
    order::lemma_full_keeps_order(s, next, p);
    order::lemma_without_distinct(s.l0, s.l0.to_set());
    if s2.l0.len() > 0 {
        assert(s2.l0.contains(s2.l0[0]));
    }
    assert(order::numbered(new, next));
    assert forall|i: int| 0 <= i < new.len() implies !files.to_set().contains(
        (#[trigger] new[i]).id,
    ) by {
        if files.contains(new[i].id) {
            lemma_files(t, new[i].id);
            lemma_file_known(s, next, t, new[i].id);
        }
    }
    order::lemma_stored_remove(s.tables, new, files.to_set());
    lemma_replaces(s, s2, next, t, new);
}

/// Compacting single tables changes no read at the watermark or later, unless the key has a prefix
/// that is filtered out. The task has to take all versions of the key that stand in its way. Where
/// the output is the last level, no level below may have the key, and a level may not have a
/// version that is older than one below it.
pub proof fn lemma_leveled_keeps_reads(
    s: StateView,
    next: int,
    o: LeveledCompactionOptions,
    p: Plan,
    k: Seq<u8>,
    ts: u64,
)
    requires
        order::orderly(s, next),
        next >= 0,
        leveled::plannable(s, o),
        leveled::leveled_task(s, o) is Some,
        ({
            let t = leveled::leveled_task(s, o)->0;
            let out = p.output(compact::level_source(s, t)->Ok_0);
            &&& order::storable(out)
            &&& next + out.tables.len() <= usize::MAX
            &&& p.rules.to_bottom == t.to_bottom
            &&& takes_whole(s, t, k)
            &&& t.to_bottom ==> aged(s) && deepest(s, t.lower_level as int, k)
        }),
        ts >= p.rules.watermark,
        !gc::filtered(p.rules.prefixes, k),
    ensures
        ({
            let t = leveled::leveled_task(s, o)->0;
            let out = p.output(compact::level_source(s, t)->Ok_0);
            let new = compact::tables_from(out, next);
            read(compact::installed(s, TaskView::Leveled(t), new), k, ts) == read(s, k, ts)
        }),
{
    let t = leveled::leveled_task(s, o)->0;
    let out = p.output(compact::level_source(s, t)->Ok_0);
    let new = compact::tables_from(out, next);
    let s2 = compact::installed(s, TaskView::Leveled(t), new);
    lemma_leveled_ran(s, next, o, p);
    lemma_task_read(s, s2, t, p, next, k, ts);
}

#[verifier::spinoff_prover]
#[verifier::rlimit(40)]
proof fn lemma_leveled_ran(s: StateView, next: int, o: LeveledCompactionOptions, p: Plan)
    requires
        order::orderly(s, next),
        next >= 0,
        leveled::plannable(s, o),
        leveled::leveled_task(s, o) is Some,
        ({
            let t = leveled::leveled_task(s, o)->0;
            let out = p.output(compact::level_source(s, t)->Ok_0);
            &&& order::storable(out)
            &&& next + out.tables.len() <= usize::MAX
            &&& p.rules.to_bottom == t.to_bottom
        }),
    ensures
        ({
            let t = leveled::leveled_task(s, o)->0;
            let out = p.output(compact::level_source(s, t)->Ok_0);
            let new = compact::tables_from(out, next);
            &&& ran(s, compact::installed(s, TaskView::Leveled(t), new), t, p, next)
            &&& placed(s, t)
        }),
{
    let t = leveled::leveled_task(s, o)->0;
    let out = p.output(compact::level_source(s, t)->Ok_0);
    let new = compact::tables_from(out, next);
    let s2 = compact::installed(s, TaskView::Leveled(t), new);
    let low = t.lower_level - 1;
    order::lemma_leveled_task_tables(s, next, o);
    assert(placed(s, t)) by {
        assert forall|id: usize| #[trigger] t.lower.contains(id) implies s.levels[low].1.contains(
            id,
        ) by {
            let c = choose|c: int| 0 <= c < t.lower.len() && t.lower[c] == id;
            assert(s.levels[low].1.contains(t.lower[c]));
        }
        if t.upper_level is Some {
            let up = t.upper_level->0 - 1;
            assert forall|id: usize| #[trigger] t.upper.contains(id) implies s.levels[up].1.contains(
                id,
            ) by {
                let c = choose|c: int| 0 <= c < t.upper.len() && t.upper[c] == id;
                assert(order::upper_list(s, Some(up)).contains(t.upper[c]));
            }
        }
    }
    lemma_files_sound(s, next, t);
    order::lemma_leveled_keeps_order(s, next, o, p);
    assert(order::numbered(new, next));
    lemma_leveled_lists(s, next, t, new);
    lemma_replaces(s, s2, next, t, new);
}

/// The lists of numbers after a leveled task.
proof fn lemma_leveled_lists(s: StateView, next: int, t: LevelTaskView, new: Seq<TableView>)
    requires
        order::orderly(s, next),
        placed(s, t),
    ensures
        ({
            let s2 = compact::installed(s, TaskView::Leveled(t), new);
            &&& lists_replaced(s, s2, t, new)
            &&& if t.upper_level is Some {
                s2.l0 == s.l0
            } else {
                s2.l0.len() == 0
            }
        }),
{
    let s2 = compact::installed(s, TaskView::Leveled(t), new);
    let low = t.lower_level - 1;
    let m = compact::stored(s.tables, new);
    let output = compact::ids_of(new);
    lemma_level_list(s, next, low);
    order::lemma_run_distinct(s.tables, s.levels[low].1);
    order::lemma_without_distinct(s.levels[low].1, t.lower.to_set());
    if t.upper_level is Some {
        let up = t.upper_level->0 - 1;
        lemma_level_list(s, next, up);
        order::lemma_run_distinct(s.tables, s.levels[up].1);
        order::lemma_without_distinct(s.levels[up].1, t.upper.to_set());
        assert(s2.levels[up].1 == ids::without(s.levels[up].1, t.upper.to_set()));
    } else {
        order::lemma_without_distinct(s.l0, t.upper.to_set());
        if s2.l0.len() > 0 {
            assert(s2.l0.contains(s2.l0[0]));
        }
    }
    let kept = ids::without(s.levels[low].1, t.lower.to_set());
    let list = ids::sorted_by_first_key(m, kept + output);
    assert(s2.levels[low].1 == list);
    assert forall|id: usize| #[trigger] list.contains(id) <==> {
        ||| s.levels[low].1.contains(id) && !t.lower.contains(id)
        ||| output.contains(id)
    } by {
        lemma_sorted_members(m, kept + output, id);
        lemma_concat_members(kept, output, id);
    }
}

proof fn lemma_concat_members(a: Seq<usize>, b: Seq<usize>, id: usize)
    ensures
        (a + b).contains(id) <==> a.contains(id) || b.contains(id),
{
    let all = a + b;
    if all.contains(id) {
        let c = choose|c: int| 0 <= c < all.len() && all[c] == id;
        if c < a.len() {
            assert(a[c] == id);
        } else {
            assert(b[c - a.len()] == id);
        }
    }
    if a.contains(id) {
        let c = choose|c: int| 0 <= c < a.len() && a[c] == id;
        assert(all[c] == id);
    }
    if b.contains(id) {
        let c = choose|c: int| 0 <= c < b.len() && b[c] == id;
        assert(all[a.len() + c] == id);
    }
}

/// Sorting keeps the members of a list.
proof fn lemma_sorted_members(m: Map<usize, TableView>, list: Seq<usize>, id: usize)
    ensures
        ids::sorted_by_first_key(m, list).contains(id) <==> list.contains(id),
{
    broadcast use vstd::seq_lib::group_to_multiset_ensures;

    ids::lemma_sorted_by_first_key(m, list);
    assert(list.contains(id) <==> list.to_multiset().count(id) > 0);
    assert(ids::sorted_by_first_key(m, list).contains(id) <==> ids::sorted_by_first_key(
        m,
        list,
    ).to_multiset().count(id) > 0);
}

/// Tiers whose tables are the same in both states hand out the same.
proof fn lemma_tiers_same(
    s: StateView,
    s2: StateView,
    tiers: Seq<(usize, Seq<usize>)>,
)
    requires
        forall|i: int, id: usize|
            0 <= i < tiers.len() && #[trigger] tiers[i].1.contains(id) ==> s2.tables[id]
                == s.tables[id],
    ensures
        compact::tier_streams(s2, tiers) == compact::tier_streams(s, tiers),
{
    assert forall|i: int| 0 <= i < tiers.len() implies compact::tables_of(
        s2,
        (#[trigger] tiers[i]).1,
    ) == compact::tables_of(s, tiers[i].1) by {
        let list = tiers[i].1;
        assert forall|a: int| 0 <= a < list.len() implies s2.tables[#[trigger] list[a]]
            == s.tables[list[a]] by {
            assert(tiers[i].1.contains(list[a]));
        }
        assert(compact::tables_of(s2, list) =~= compact::tables_of(s, list));
    }
    assert(compact::tier_streams(s2, tiers) =~= compact::tier_streams(s, tiers));
}

/// Compacting tiers changes no read at the watermark or later, unless the key has a prefix that is
/// filtered out.
pub proof fn lemma_tiered_keeps_reads(
    s: StateView,
    next: int,
    o: TieredCompactionOptions,
    p: Plan,
    k: Seq<u8>,
    ts: u64,
)
    requires
        order::orderly(s, next),
        next >= 0,
        s.l0.len() == 0,
        s.levels.len() > 0,
        tiered::distinct(s.levels),
        tiered::tiered_task(s, o) is Some,
        (tiered::tiered_task(s, o)->0).tiers.len() > 0,
        ({
            let t = TaskView::Tiered(tiered::tiered_task(s, o)->0);
            let out = p.output(compact::source(s, t)->Ok_0);
            order::storable(out) && next + out.tables.len() <= usize::MAX
        }),
        p.rules.to_bottom == (tiered::tiered_task(s, o)->0).bottom_included,
        ts >= p.rules.watermark,
        !gc::filtered(p.rules.prefixes, k),
    ensures
        ({
            let t = TaskView::Tiered(tiered::tiered_task(s, o)->0);
            let out = p.output(compact::source(s, t)->Ok_0);
            let new = compact::tables_from(out, next);
            read(compact::installed(s, t, new), k, ts) == read(s, k, ts)
        }),
{
    let task = tiered::tiered_task(s, o)->0;
    tiered::lemma_tiered_task(s, o);
    order::lemma_tiered_keeps_order(s, next, o, p);
    lemma_tiers_ran(s, next, task, p);
    let out = p.output(compact::source(s, TaskView::Tiered(task))->Ok_0);
    let new = compact::tables_from(out, next);
    let s2 = compact::installed(s, TaskView::Tiered(task), new);
    lemma_tiers_swapped(s, s2, next, task.tiers.len() as int, p, k, ts);
}

/// The newest tiers were replaced by what a compaction keeps of them.
spec fn tiers_ran(s: StateView, s2: StateView, next: int, n: int, p: Plan) -> bool {
    let source = compact::merged_source(compact::tier_streams(s, s.levels.take(n)))->Ok_0;
    let new = compact::tables_from(p.output(source), next);
    &&& order::orderly(s, next)
    &&& order::orderly(s2, next + new.len())
    &&& 0 <= n <= s.levels.len()
    &&& s.l0.len() == 0
    &&& s2.l0.len() == 0
    &&& merge_iterator::sound_stream(source)
    &&& order::storable(p.output(source))
    &&& s2.levels == tiered::output_tier(compact::ids_of(new)) + s.levels.skip(n)
    &&& forall|i: int| 0 <= i < new.len() ==> s2.tables[(#[trigger] new[i]).id] == new[i]
    &&& compact::tier_streams(s2, s.levels.skip(n)) == compact::tier_streams(s, s.levels.skip(n))
}

#[verifier::spinoff_prover]
#[verifier::rlimit(40)]
proof fn lemma_tiers_ran(s: StateView, next: int, t: tiered::TierTaskView, p: Plan)
    requires
        order::orderly(s, next),
        s.l0.len() == 0,
        tiered::distinct(s.levels),
        0 < t.tiers.len() <= s.levels.len(),
        t.tiers == s.levels.take(t.tiers.len() as int),
        ({
            let out = p.output(compact::source(s, TaskView::Tiered(t))->Ok_0);
            let new = compact::tables_from(out, next);
            &&& order::storable(out)
            &&& next >= 0
            &&& next + out.tables.len() <= usize::MAX
            &&& order::orderly(
                compact::installed(s, TaskView::Tiered(t), new),
                next + new.len(),
            )
        }),
    ensures
        ({
            let out = p.output(compact::source(s, TaskView::Tiered(t))->Ok_0);
            let new = compact::tables_from(out, next);
            tiers_ran(
                s,
                compact::installed(s, TaskView::Tiered(t), new),
                next,
                t.tiers.len() as int,
                p,
            )
        }),
{
    let n = t.tiers.len() as int;
    let out = p.output(compact::source(s, TaskView::Tiered(t))->Ok_0);
    let new = compact::tables_from(out, next);
    let s2 = compact::installed(s, TaskView::Tiered(t), new);
    order::lemma_tier_source_sound(s, next, n);
    order::lemma_tiers_installed(s, t, new);
    assert(order::numbered(new, next));
    lemma_tiered_tables(s, s2, next, t, new);
    lemma_tiers_same(s, s2, s.levels.skip(n));
}

/// Replacing the newest tiers by what a compaction keeps of them changes no read.
proof fn lemma_tiers_swapped(
    s: StateView,
    s2: StateView,
    next: int,
    n: int,
    p: Plan,
    k: Seq<u8>,
    ts: u64,
)
    requires
        tiers_ran(s, s2, next, n, p),
        p.rules.to_bottom ==> n == s.levels.len(),
        ts >= p.rules.watermark,
        !gc::filtered(p.rules.prefixes, k),
    ensures
        read(s2, k, ts) == read(s, k, ts),
{
    let source = compact::merged_source(compact::tier_streams(s, s.levels.take(n)))->Ok_0;
    let src = source.entries;
    let new = compact::tables_from(p.output(source), next);
    let rest = s.levels.skip(n);
    let back = compact::tier_streams(s, rest);
    assert(s.levels =~= s.levels.take(n) + rest);
    lemma_tiers_read(s, next, s.levels.take(n), rest, k, ts);
    lemma_tiers_read(
        s2,
        next + new.len(),
        tiered::output_tier(compact::ids_of(new)),
        rest,
        k,
        ts,
    );
    lemma_tiers_merged(s, next, n, k, ts);
    gc::lemma_kept_newest(p.rules, src, Seen::nothing(), k, ts);
    lemma_tier_new(s2, p, source, next, k, ts);
    if p.rules.to_bottom {
        assert(rest =~= Seq::empty());
        assert(back =~= Seq::empty());
    }
    lemma_dropped(
        None,
        snapshot::newest(src, k, ts),
        snapshot::newest(p.rules.kept(src, Seen::nothing()), k, ts),
        best(back, k, ts),
        p.rules.to_bottom,
    );
}

/// What is read from tiers, by the first of them and the rest.
proof fn lemma_tiers_read(
    s: StateView,
    next: int,
    first: Seq<(usize, Seq<usize>)>,
    rest: Seq<(usize, Seq<usize>)>,
    k: Seq<u8>,
    ts: u64,
)
    requires
        order::orderly(s, next),
        s.l0.len() == 0,
        s.levels == first + rest,
    ensures
        read(s, k, ts) == shown(
            newer(
                best(compact::tier_streams(s, first), k, ts),
                best(compact::tier_streams(s, rest), k, ts),
            ),
        ),
{
    let a = compact::tier_streams(s, first);
    let b = compact::tier_streams(s, rest);
    lemma_read_best(s, next, k, ts);
    assert(level_layers(s) =~= a + b);
    lemma_best_concat(a, b, k, ts);
}

/// The newest version of a key in what a task over tiers compacts.
proof fn lemma_tiers_merged(s: StateView, next: int, n: int, k: Seq<u8>, ts: u64)
    requires
        order::orderly(s, next),
        0 <= n <= s.levels.len(),
    ensures
        ({
            let ss = compact::tier_streams(s, s.levels.take(n));
            &&& compact::merged_source(ss) is Ok
            &&& snapshot::newest(compact::merged_source(ss)->Ok_0.entries, k, ts) == best(ss, k, ts)
        }),
{
    let ss = compact::tier_streams(s, s.levels.take(n));
    lemma_layers(s, next);
    assert forall|i: int| 0 <= i < ss.len() implies #[trigger] merge_iterator::sound_stream(
        ss[i],
    ) by {
        assert(ss[i] == level_layers(s)[i]);
        assert(merge_iterator::sound_stream(level_layers(s)[i]));
    }
    reveal(compact::merged_source);
    order::lemma_no_first_fault(ss);
    lemma_best_merged(ss, k, ts);
}

/// The tables after a task over the newest tiers.
proof fn lemma_tiered_tables(
    s: StateView,
    s2: StateView,
    next: int,
    t: tiered::TierTaskView,
    new: Seq<TableView>,
)
    requires
        order::orderly(s, next),
        order::numbered(new, next),
        0 < t.tiers.len() <= s.levels.len(),
        t.tiers == s.levels.take(t.tiers.len() as int),
        s2.tables == compact::stored(s.tables, new).remove_keys(
            tiered::tier_files(t.tiers).to_set(),
        ),
    ensures
        forall|i: int, id: usize|
            0 <= i < s.levels.skip(t.tiers.len() as int).len() && #[trigger] s.levels.skip(
                t.tiers.len() as int,
            )[i].1.contains(id) ==> s2.tables[id] == s.tables[id],
        forall|i: int| 0 <= i < new.len() ==> s2.tables[(#[trigger] new[i]).id] == new[i],
{
    let n = t.tiers.len() as int;
    let rest = s.levels.skip(n);
    let files = tiered::tier_files(t.tiers);
    order::lemma_stored_lookup(s.tables, new, next);
    assert forall|i: int, id: usize|
        0 <= i < rest.len() && #[trigger] rest[i].1.contains(id) implies s2.tables[id]
        == s.tables[id] by {
        assert(rest[i] == s.levels[n + i]);
        lemma_known(s, next, n + i, id);
        if files.contains(id) {
            order::lemma_tier_files(t.tiers, id);
            let j = choose|j: int|
                0 <= j < t.tiers.len() && (#[trigger] t.tiers[j]).1.contains(id);
            assert(t.tiers[j] == s.levels[j]);
            lemma_one_place(s, next, j, n + i, id);
        }
        assert(compact::stored(s.tables, new)[id] == s.tables[id]);
    }
    assert forall|i: int| 0 <= i < new.len() implies s2.tables[(#[trigger] new[i]).id]
        == new[i] by {
        let id = new[i].id;
        if files.contains(id) {
            order::lemma_tier_files(t.tiers, id);
            let j = choose|j: int|
                0 <= j < t.tiers.len() && (#[trigger] t.tiers[j]).1.contains(id);
            assert(t.tiers[j] == s.levels[j]);
            lemma_known(s, next, j, id);
        }
        assert(!files.to_set().contains(id));
    }
}

/// The new tier has what a compaction keeps.
proof fn lemma_tier_new(
    s2: StateView,
    p: Plan,
    source: Stream,
    next: int,
    k: Seq<u8>,
    ts: u64,
)
    requires
        merge_iterator::sound_stream(source),
        order::storable(p.output(source)),
        ({
            let new = compact::tables_from(p.output(source), next);
            forall|i: int| 0 <= i < new.len() ==> s2.tables[(#[trigger] new[i]).id] == new[i]
        }),
    ensures
        ({
            let new = compact::tables_from(p.output(source), next);
            best(
                compact::tier_streams(s2, tiered::output_tier(compact::ids_of(new))),
                k,
                ts,
            ) == snapshot::newest(p.rules.kept(source.entries, Seen::nothing()), k, ts)
        }),
{
    let new = compact::tables_from(p.output(source), next);
    let output = compact::ids_of(new);
    let kept = p.rules.kept(source.entries, Seen::nothing());
    order::lemma_output_read_back(p, source, next);
    assert(concat_iterator::tables_from(new, 0).entries == kept);
    if output.len() == 0 {
        assert(compact::tier_streams(s2, tiered::output_tier(output)) =~= Seq::empty());
        assert(kept.len() == 0);
    } else {
        let ts2 = compact::tables_of(s2, output);
        assert forall|i: int| 0 <= i < output.len() implies #[trigger] ts2[i] == new[i] by {
            assert(s2.tables[new[i].id] == new[i]);
        }
        assert(ts2 =~= new);
        lemma_best_one(concat_iterator::tables_from(new, 0), k, ts);
        assert(compact::tier_streams(s2, tiered::output_tier(output)) =~= seq![
            concat_iterator::tables_from(new, 0),
        ]);
    }
}

proof fn lemma_best_one(s: Stream, k: Seq<u8>, ts: u64)
    ensures
        best(seq![s], k, ts) == snapshot::newest(s.entries, k, ts),
{
    let ss = seq![s];
    assert(ss.drop_last() =~= Seq::<Stream>::empty());
    assert(best(ss.drop_last(), k, ts) is None);
}

/// In two layers one behind the other, no version of a key in the first is older than one in the
/// second.
spec fn pair_aged(a: Stream, b: Stream) -> bool {
    forall|x: Entry, y: Entry| #[trigger]
        a.entries.contains(x) && #[trigger] b.entries.contains(y) && x.key.key == y.key.key
            ==> x.key.ts >= y.key.ts
}

proof fn lemma_aged(s: StateView)
    ensures
        aged(s) <==> forall|i: int, j: int|
            0 <= i < j < layers(s).len() ==> pair_aged(
                #[trigger] layers(s)[i],
                #[trigger] layers(s)[j],
            ),
{
    reveal(aged);
    if forall|i: int, j: int|
        0 <= i < j < layers(s).len() ==> pair_aged(
            #[trigger] layers(s)[i],
            #[trigger] layers(s)[j],
        ) {
        assert forall|i: int, j: int, x: Entry, y: Entry|
            0 <= i < j < layers(s).len() && #[trigger] layers(s)[i].entries.contains(x)
                && #[trigger] layers(s)[j].entries.contains(y) && x.key.key
                == y.key.key implies x.key.ts >= y.key.ts by {
            assert(pair_aged(layers(s)[i], layers(s)[j]));
        }
    }
}

/// Ages by L0 and levels.
proof fn lemma_aged_parts(s: StateView)
    ensures
        aged(s) <==> {
            &&& forall|i: int, j: int|
                0 <= i < j < s.l0.len() ==> pair_aged(
                    #[trigger] l0_layers(s)[i],
                    #[trigger] l0_layers(s)[j],
                )
            &&& forall|i: int, j: int|
                0 <= i < s.l0.len() && 0 <= j < s.levels.len() ==> pair_aged(
                    #[trigger] l0_layers(s)[i],
                    #[trigger] level_layers(s)[j],
                )
            &&& forall|i: int, j: int|
                0 <= i < j < s.levels.len() ==> pair_aged(
                    #[trigger] level_layers(s)[i],
                    #[trigger] level_layers(s)[j],
                )
        },
{
    lemma_aged(s);
    let all = layers(s);
    let a = l0_layers(s);
    let b = level_layers(s);
    let n = s.l0.len() as int;
    assert forall|i: int| 0 <= i < n implies all[i] == #[trigger] a[i] by {}
    assert forall|i: int| 0 <= i < s.levels.len() implies all[n + i] == #[trigger] b[i] by {}
    if aged(s) {
        assert forall|i: int, j: int| 0 <= i < j < n implies pair_aged(
            #[trigger] a[i],
            #[trigger] a[j],
        ) by {
            assert(pair_aged(all[i], all[j]));
        }
        assert forall|i: int, j: int| 0 <= i < n && 0 <= j < s.levels.len() implies pair_aged(
            #[trigger] a[i],
            #[trigger] b[j],
        ) by {
            assert(pair_aged(all[i], all[n + j]));
        }
        assert forall|i: int, j: int| 0 <= i < j < s.levels.len() implies pair_aged(
            #[trigger] b[i],
            #[trigger] b[j],
        ) by {
            assert(pair_aged(all[n + i], all[n + j]));
        }
    }
    if {
        &&& forall|i: int, j: int|
            0 <= i < j < n ==> pair_aged(#[trigger] a[i], #[trigger] a[j])
        &&& forall|i: int, j: int|
            0 <= i < n && 0 <= j < s.levels.len() ==> pair_aged(#[trigger] a[i], #[trigger] b[j])
        &&& forall|i: int, j: int|
            0 <= i < j < s.levels.len() ==> pair_aged(#[trigger] b[i], #[trigger] b[j])
    } {
        assert forall|i: int, j: int| 0 <= i < j < all.len() implies pair_aged(
            #[trigger] all[i],
            #[trigger] all[j],
        ) by {
            if j < n {
                assert(pair_aged(a[i], a[j]));
            } else if i < n {
                assert(pair_aged(a[i], b[j - n]));
            } else {
                assert(pair_aged(b[i - n], b[j - n]));
            }
        }
    }
}

/// An entry of a level after a task was there before in another table than those of the task, or
/// comes from one of these.
proof fn lemma_origin(
    s: StateView,
    s2: StateView,
    t: LevelTaskView,
    p: Plan,
    next: int,
    i: int,
    x: Entry,
)
    requires
        ran(s, s2, t, p, next),
        0 <= i < s.levels.len(),
        level_layers(s2)[i].entries.contains(x),
    ensures
        ({
            let files = t.upper + t.lower;
            ||| exists|id: usize| #[trigger]
                s.levels[i].1.contains(id) && !files.contains(id) && order::entries(
                    s.tables[id],
                ).contains(x)
            ||| i == t.lower_level - 1 && held(s, t.upper, x)
            ||| i == t.lower_level - 1 && held(s, t.lower, x)
        }),
{
    let files = t.upper + t.lower;
    let source = task_source(s, t);
    let new = compact::tables_from(p.output(source), next);
    lemma_layers(s2, next + new.len());
    lemma_held(s2, s2.levels[i].1, x);
    assert(held(s2, s2.levels[i].1, x));
    let id = choose|id: usize| #[trigger]
        s2.levels[i].1.contains(id) && order::entries(s2.tables[id]).contains(x);
    lemma_known(s2, next + new.len(), i, id);
    if s.levels[i].1.contains(id) && !files.contains(id) {
        lemma_known(s, next, i, id);
    } else {
        let output = compact::ids_of(new);
        let j = choose|j: int| 0 <= j < output.len() && output[j] == id;
        assert(s2.tables[new[j].id] == new[j]);
        order::lemma_level_source_sound(s, t);
        lemma_new_entries(p, source, next);
        gc::lemma_kept_sorted(p.rules, source.entries, Seen::nothing());
        assert(in_tables(new, x)) by {
            assert(order::entries(new[j]).contains(x));
        }
        assert(p.rules.kept(source.entries, Seen::nothing()).contains(x));
        assert(source.entries.contains(x));
        let c = choose|c: int|
            0 <= c < files.len() && order::entries(s.tables[#[trigger] files[c]]).contains(x);
        if c < t.upper.len() {
            assert(t.upper.contains(t.upper[c]));
        } else {
            assert(t.lower.contains(t.lower[c - t.upper.len()]));
        }
    }
}

/// An entry of a table in a level is in the layer of the level.
proof fn lemma_in_layer(s: StateView, next: int, i: int, id: usize, x: Entry)
    requires
        order::orderly(s, next),
        0 <= i < s.levels.len(),
        s.levels[i].1.contains(id),
        order::entries(s.tables[id]).contains(x),
    ensures
        level_layers(s)[i].entries.contains(x),
{
    lemma_layers(s, next);
    assert(held(s, s.levels[i].1, x));
    lemma_held(s, s.levels[i].1, x);
}

/// An entry in a layer of the state that is not behind level `i`.
spec fn before_level(s: StateView, i: int, x: Entry) -> bool {
    ||| exists|a: int| 0 <= a <= i && #[trigger] level_layers(s)[a].entries.contains(x)
    ||| exists|c: int| 0 <= c < s.l0.len() && #[trigger] l0_layers(s)[c].entries.contains(x)
}

/// An entry that is in a level after a task was not behind that level before it.
proof fn lemma_before_level(
    s: StateView,
    s2: StateView,
    t: LevelTaskView,
    p: Plan,
    next: int,
    i: int,
    x: Entry,
)
    requires
        ran(s, s2, t, p, next),
        0 <= i < s.levels.len(),
        level_layers(s2)[i].entries.contains(x),
    ensures
        before_level(s, i, x),
{
    let files = t.upper + t.lower;
    lemma_origin(s, s2, t, p, next, i, x);
    if exists|id: usize| #[trigger]
        s.levels[i].1.contains(id) && !files.contains(id) && order::entries(s.tables[id]).contains(
            x,
        ) {
        let id = choose|id: usize| #[trigger]
            s.levels[i].1.contains(id) && !files.contains(id) && order::entries(
                s.tables[id],
            ).contains(x);
        lemma_in_layer(s, next, i, id, x);
    } else if held(s, t.lower, x) {
        let id = choose|id: usize| #[trigger]
            t.lower.contains(id) && order::entries(s.tables[id]).contains(x);
        lemma_in_layer(s, next, i, id, x);
    } else {
        let id = choose|id: usize| #[trigger]
            t.upper.contains(id) && order::entries(s.tables[id]).contains(x);
        if t.upper_level is Some {
            lemma_in_layer(s, next, i - 1, id, x);
        } else {
            let c = choose|c: int| 0 <= c < s.l0.len() && s.l0[c] == id;
            lemma_layers(s, next);
            assert(l0_layers(s)[c].entries.contains(x));
        }
    }
}

/// No version that is not behind level `i` is older than one behind it.
proof fn lemma_aged_use(s: StateView, i: int, j: int, x: Entry, y: Entry)
    requires
        aged(s),
        0 <= i < j < s.levels.len(),
        before_level(s, i, x),
        level_layers(s)[j].entries.contains(y),
        x.key.key == y.key.key,
    ensures
        x.key.ts >= y.key.ts,
{
    lemma_aged_parts(s);
    if exists|a: int| 0 <= a <= i && #[trigger] level_layers(s)[a].entries.contains(x) {
        let a = choose|a: int| 0 <= a <= i && #[trigger] level_layers(s)[a].entries.contains(x);
        assert(pair_aged(level_layers(s)[a], level_layers(s)[j]));
    } else {
        let c = choose|c: int|
            0 <= c < s.l0.len() && #[trigger] l0_layers(s)[c].entries.contains(x);
        assert(pair_aged(l0_layers(s)[c], level_layers(s)[j]));
    }
}

/// The levels after a task.
#[verifier::spinoff_prover]
#[verifier::rlimit(40)]
proof fn lemma_pair_task(
    s: StateView,
    s2: StateView,
    t: LevelTaskView,
    p: Plan,
    next: int,
    i: int,
    j: int,
    x: Entry,
    y: Entry,
)
    requires
        ran(s, s2, t, p, next),
        aged(s),
        takes_whole(s, t, x.key.key),
        0 <= i < j < s.levels.len(),
        level_layers(s2)[i].entries.contains(x),
        level_layers(s2)[j].entries.contains(y),
        x.key.key == y.key.key,
    ensures
        x.key.ts >= y.key.ts,
{
    let k = x.key.key;
    let files = t.upper + t.lower;
    lemma_before_level(s, s2, t, p, next, i, x);
    lemma_origin(s, s2, t, p, next, j, y);
    if exists|id: usize| #[trigger]
        s.levels[j].1.contains(id) && !files.contains(id) && order::entries(s.tables[id]).contains(
            y,
        ) {
        let id = choose|id: usize| #[trigger]
            s.levels[j].1.contains(id) && !files.contains(id) && order::entries(
                s.tables[id],
            ).contains(y);
        lemma_in_layer(s, next, j, id, y);
        lemma_aged_use(s, i, j, x, y);
    } else if held(s, t.lower, y) {
        let id = choose|id: usize| #[trigger]
            t.lower.contains(id) && order::entries(s.tables[id]).contains(y);
        lemma_in_layer(s, next, j, id, y);
        lemma_aged_use(s, i, j, x, y);
    } else {
        let id = choose|id: usize| #[trigger]
            t.upper.contains(id) && order::entries(s.tables[id]).contains(y);
        assert(holds(s.tables[id], k));
        assert(list_holds(s, t.upper, k));
        lemma_origin(s, s2, t, p, next, i, x);
        let other = choose|other: usize| #[trigger]
            s.levels[i].1.contains(other) && !files.contains(other) && order::entries(
                s.tables[other],
            ).contains(x);
        assert(holds(s.tables[other], k));
        if t.upper_level is None || i == j - 1 {
            assert(others_lack(s, s.levels[i].1, files, k));
        } else {
            lemma_in_layer(s, next, j - 1, id, y);
            lemma_aged_use(s, i, j - 1, x, y);
        }
    }
}

/// A task keeps the ages of layers in order.
proof fn lemma_task_aged(s: StateView, s2: StateView, t: LevelTaskView, p: Plan, next: int)
    requires
        ran(s, s2, t, p, next),
        aged(s),
        forall|k: Seq<u8>| #[trigger] takes_whole(s, t, k),
    ensures
        aged(s2),
{
    lemma_aged_parts(s2);
    assert forall|i: int, j: int| 0 <= i < j < s2.levels.len() implies pair_aged(
        #[trigger] level_layers(s2)[i],
        #[trigger] level_layers(s2)[j],
    ) by {
        assert forall|x: Entry, y: Entry| #[trigger]
            level_layers(s2)[i].entries.contains(x) && #[trigger] level_layers(
                s2,
            )[j].entries.contains(y) && x.key.key == y.key.key implies x.key.ts >= y.key.ts by {
            assert(takes_whole(s, t, x.key.key));
            lemma_pair_task(s, s2, t, p, next, i, j, x, y);
        }
    }
    if t.upper_level is Some {
        lemma_l0_pairs(s, s2, t, p, next);
    }
}

/// L0 after a task that does not take it.
proof fn lemma_l0_pairs(s: StateView, s2: StateView, t: LevelTaskView, p: Plan, next: int)
    requires
        ran(s, s2, t, p, next),
        aged(s),
        t.upper_level is Some,
    ensures
        forall|i: int, j: int|
            0 <= i < j < s2.l0.len() ==> pair_aged(
                #[trigger] l0_layers(s2)[i],
                #[trigger] l0_layers(s2)[j],
            ),
        forall|i: int, j: int|
            0 <= i < s2.l0.len() && 0 <= j < s2.levels.len() ==> pair_aged(
                #[trigger] l0_layers(s2)[i],
                #[trigger] level_layers(s2)[j],
            ),
{
    let new = compact::tables_from(p.output(task_source(s, t)), next);
    lemma_aged_parts(s);
    lemma_layers(s, next);
    lemma_layers(s2, next + new.len());
    assert forall|i: int| 0 <= i < s2.l0.len() implies (#[trigger] l0_layers(s2)[i]).entries
        == l0_layers(s)[i].entries by {
        assert(s.tables.dom().contains(s.l0[i]));
        assert(s2.tables.dom().contains(s2.l0[i]));
        assert(l0_layers(s)[i].entries == order::entries(s.tables[s.l0[i]]));
        assert(l0_layers(s2)[i].entries == order::entries(s2.tables[s2.l0[i]]));
    }
    assert forall|i: int, j: int| 0 <= i < j < s2.l0.len() implies pair_aged(
        #[trigger] l0_layers(s2)[i],
        #[trigger] l0_layers(s2)[j],
    ) by {
        assert(pair_aged(l0_layers(s)[i], l0_layers(s)[j]));
    }
    assert forall|i: int, j: int| 0 <= i < s2.l0.len() && 0 <= j < s2.levels.len() implies pair_aged(
        #[trigger] l0_layers(s2)[i],
        #[trigger] level_layers(s2)[j],
    ) by {
        assert forall|x: Entry, y: Entry| #[trigger]
            l0_layers(s2)[i].entries.contains(x) && #[trigger] level_layers(s2)[j].entries.contains(
                y,
            ) && x.key.key == y.key.key implies x.key.ts >= y.key.ts by {
            lemma_level_origin(s, s2, t, p, next, j, y);
            let a = choose|a: int|
                0 <= a < s.levels.len() && #[trigger] level_layers(s)[a].entries.contains(y);
            assert(pair_aged(l0_layers(s)[i], level_layers(s)[a]));
            assert(l0_layers(s)[i].entries.contains(x));
        }
    }
}

/// Where a task does not take L0, what is in a level was in a level.
proof fn lemma_level_origin(
    s: StateView,
    s2: StateView,
    t: LevelTaskView,
    p: Plan,
    next: int,
    j: int,
    y: Entry,
)
    requires
        ran(s, s2, t, p, next),
        t.upper_level is Some,
        0 <= j < s.levels.len(),
        level_layers(s2)[j].entries.contains(y),
    ensures
        exists|a: int|
            0 <= a < s.levels.len() && #[trigger] level_layers(s)[a].entries.contains(y),
{
    let files = t.upper + t.lower;
    lemma_origin(s, s2, t, p, next, j, y);
    if exists|id: usize| #[trigger]
        s.levels[j].1.contains(id) && !files.contains(id) && order::entries(s.tables[id]).contains(
            y,
        ) {
        let id = choose|id: usize| #[trigger]
            s.levels[j].1.contains(id) && !files.contains(id) && order::entries(
                s.tables[id],
            ).contains(y);
        lemma_in_layer(s, next, j, id, y);
    } else if held(s, t.lower, y) {
        let id = choose|id: usize| #[trigger]
            t.lower.contains(id) && order::entries(s.tables[id]).contains(y);
        lemma_in_layer(s, next, j, id, y);
    } else {
        let id = choose|id: usize| #[trigger]
            t.upper.contains(id) && order::entries(s.tables[id]).contains(y);
        lemma_in_layer(s, next, j - 1, id, y);
    }
}

/// Compacting whole levels keeps ages: if no version in L0 or a level is older than one below it,
/// that is so after the task that is due.
pub proof fn lemma_simple_keeps_ages(
    s: StateView,
    next: int,
    o: SimpleLeveledCompactionOptions,
    p: Plan,
)
    requires
        order::orderly(s, next),
        aged(s),
        next >= 0,
        simple_leveled::enough_levels(s, o),
        simple_leveled::simple_task(s, o) is Some,
        ({
            let t = simple_leveled::simple_task(s, o)->0;
            let out = p.output(compact::level_source(s, t)->Ok_0);
            &&& order::storable(out)
            &&& next + out.tables.len() <= usize::MAX
            &&& p.rules.to_bottom == t.to_bottom
        }),
    ensures
        ({
            let t = simple_leveled::simple_task(s, o)->0;
            let out = p.output(compact::level_source(s, t)->Ok_0);
            let new = compact::tables_from(out, next);
            aged(compact::installed(s, TaskView::Simple(t), new))
        }),
{
    let t = simple_leveled::simple_task(s, o)->0;
    let out = p.output(compact::level_source(s, t)->Ok_0);
    let new = compact::tables_from(out, next);
    let s2 = compact::installed(s, TaskView::Simple(t), new);
    lemma_simple_ran(s, next, o, p);
    assert forall|k: Seq<u8>| #[trigger] takes_whole(s, t, k) by {
        lemma_whole_levels(s, t, k);
    }
    lemma_task_aged(s, s2, t, p, next);
}

/// A full compaction keeps ages.
pub proof fn lemma_full_keeps_ages(s: StateView, next: int, p: Plan)
    requires
        order::orderly(s, next),
        aged(s),
        next >= 0,
        s.levels.len() > 0,
        ({
            let out = p.output(compact::source(s, TaskView::Full(s.l0, s.levels[0].1))->Ok_0);
            order::storable(out) && next + out.tables.len() <= usize::MAX
        }),
        p.rules.to_bottom,
    ensures
        ({
            let l1 = s.levels[0].1;
            let out = p.output(compact::source(s, TaskView::Full(s.l0, l1))->Ok_0);
            let new = compact::tables_from(out, next);
            aged(compact::fully_installed(s, s.l0, l1, new))
        }),
{
    let l1 = s.levels[0].1;
    let t = full_task(s);
    let out = p.output(compact::source(s, TaskView::Full(s.l0, l1))->Ok_0);
    let new = compact::tables_from(out, next);
    lemma_full_ran(s, next, p);
    assert forall|k: Seq<u8>| #[trigger] takes_whole(s, t, k) by {
        lemma_whole_levels(s, t, k);
    }
    lemma_task_aged(s, compact::fully_installed(s, s.l0, l1, new), t, p, next);
}

/// Compacting single tables keeps ages where the task takes all versions of every key that stand in
/// its way.
pub proof fn lemma_leveled_keeps_ages(
    s: StateView,
    next: int,
    o: LeveledCompactionOptions,
    p: Plan,
)
    requires
        order::orderly(s, next),
        aged(s),
        next >= 0,
        leveled::plannable(s, o),
        leveled::leveled_task(s, o) is Some,
        ({
            let t = leveled::leveled_task(s, o)->0;
            let out = p.output(compact::level_source(s, t)->Ok_0);
            &&& order::storable(out)
            &&& next + out.tables.len() <= usize::MAX
            &&& p.rules.to_bottom == t.to_bottom
            &&& forall|k: Seq<u8>| #[trigger] takes_whole(s, t, k)
        }),
    ensures
        ({
            let t = leveled::leveled_task(s, o)->0;
            let out = p.output(compact::level_source(s, t)->Ok_0);
            let new = compact::tables_from(out, next);
            aged(compact::installed(s, TaskView::Leveled(t), new))
        }),
{
    let t = leveled::leveled_task(s, o)->0;
    let out = p.output(compact::level_source(s, t)->Ok_0);
    let new = compact::tables_from(out, next);
    lemma_leveled_ran(s, next, o, p);
    lemma_task_aged(s, compact::installed(s, TaskView::Leveled(t), new), t, p, next);
}

/// Compacting tiers keeps ages.
pub proof fn lemma_tiered_keeps_ages(
    s: StateView,
    next: int,
    o: TieredCompactionOptions,
    p: Plan,
)
    requires
        order::orderly(s, next),
        aged(s),
        next >= 0,
        s.l0.len() == 0,
        s.levels.len() > 0,
        tiered::distinct(s.levels),
        tiered::tiered_task(s, o) is Some,
        (tiered::tiered_task(s, o)->0).tiers.len() > 0,
        ({
            let t = TaskView::Tiered(tiered::tiered_task(s, o)->0);
            let out = p.output(compact::source(s, t)->Ok_0);
            order::storable(out) && next + out.tables.len() <= usize::MAX
        }),
    ensures
        ({
            let t = TaskView::Tiered(tiered::tiered_task(s, o)->0);
            let out = p.output(compact::source(s, t)->Ok_0);
            let new = compact::tables_from(out, next);
            aged(compact::installed(s, t, new))
        }),
{
    let task = tiered::tiered_task(s, o)->0;
    tiered::lemma_tiered_task(s, o);
    order::lemma_tiered_keeps_order(s, next, o, p);
    lemma_tiers_ran(s, next, task, p);
    let out = p.output(compact::source(s, TaskView::Tiered(task))->Ok_0);
    let new = compact::tables_from(out, next);
    let s2 = compact::installed(s, TaskView::Tiered(task), new);
    lemma_tiers_aged(s, s2, next, task.tiers.len() as int, p);
}

/// Replacing the newest tiers by what a compaction keeps of them keeps ages.
proof fn lemma_tiers_aged(s: StateView, s2: StateView, next: int, n: int, p: Plan)
    requires
        tiers_ran(s, s2, next, n, p),
        aged(s),
    ensures
        aged(s2),
{
    let source = compact::merged_source(compact::tier_streams(s, s.levels.take(n)))->Ok_0;
    let new = compact::tables_from(p.output(source), next);
    let tier = tiered::output_tier(compact::ids_of(new));
    let rest = s.levels.skip(n);
    let sl = level_layers(s);
    let sl2 = level_layers(s2);
    let h = tier.len() as int;
    lemma_aged_parts(s);
    lemma_aged_parts(s2);
    assert forall|i: int| h <= i < sl2.len() implies #[trigger] sl2[i] == sl[i - h + n] by {
        assert(s2.levels[i] == rest[i - h]);
        assert(compact::tier_streams(s2, rest)[i - h] == compact::tier_streams(s, rest)[i - h]);
    }
    assert forall|i: int, j: int| 0 <= i < j < s2.levels.len() implies pair_aged(
        #[trigger] sl2[i],
        #[trigger] sl2[j],
    ) by {
        if i >= h {
            assert(pair_aged(sl[i - h + n], sl[j - h + n]));
        } else {
            assert(s2.levels[i] == tier[i]);
            assert forall|x: Entry, y: Entry| #[trigger]
                sl2[i].entries.contains(x) && #[trigger] sl2[j].entries.contains(y) && x.key.key
                    == y.key.key implies x.key.ts >= y.key.ts by {
                lemma_tier_origin(s, s2, next, n, p, x);
                let a = choose|a: int|
                    0 <= a < n && #[trigger] level_layers(s)[a].entries.contains(x);
                assert(pair_aged(sl[a], sl[j - h + n]));
            }
        }
    }
}

/// An entry of the new tier comes from one of the tiers that it replaces.
proof fn lemma_tier_origin(
    s: StateView,
    s2: StateView,
    next: int,
    n: int,
    p: Plan,
    x: Entry,
)
    requires
        tiers_ran(s, s2, next, n, p),
        ({
            let source = compact::merged_source(compact::tier_streams(s, s.levels.take(n)))->Ok_0;
            let new = compact::tables_from(p.output(source), next);
            &&& new.len() > 0
            &&& level_layers(s2)[0].entries.contains(x)
        }),
    ensures
        exists|a: int| 0 <= a < n && #[trigger] level_layers(s)[a].entries.contains(x),
{
    let ss = compact::tier_streams(s, s.levels.take(n));
    let source = compact::merged_source(ss)->Ok_0;
    let new = compact::tables_from(p.output(source), next);
    let output = compact::ids_of(new);
    let ts2 = compact::tables_of(s2, output);
    assert(s2.levels[0].1 == output);
    assert forall|i: int| 0 <= i < output.len() implies #[trigger] ts2[i] == new[i] by {
        assert(s2.tables[new[i].id] == new[i]);
    }
    assert(ts2 =~= new);
    order::lemma_output_read_back(p, source, next);
    assert(p.rules.kept(source.entries, Seen::nothing()).contains(x));
    gc::lemma_kept_sorted(p.rules, source.entries, Seen::nothing());
    assert(source.entries.contains(x));
    lemma_layers(s, next);
    assert forall|i: int| 0 <= i < ss.len() implies #[trigger] merge_iterator::sound_stream(
        ss[i],
    ) && ss[i] == level_layers(s)[i] by {
        assert(merge_iterator::sound_stream(level_layers(s)[i]));
    }
    order::lemma_no_first_fault(ss);
    reveal(compact::merged_source);
    merge_iterator::lemma_merged_sound(ss);
    let i = choose|i: int| merge_iterator::first_with(ss, x, i);
    assert(merge_iterator::first_with(ss, x, i));
    assert(ss[i] == level_layers(s)[i]);
}

/// The table stands in L0 or in a level.
pub open spec fn stands(s: StateView, id: usize) -> bool {
    s.l0.contains(id) || exists|i: int|
        0 <= i < s.levels.len() && (#[trigger] s.levels[i]).1.contains(id)
}

/// No two tables have the same version of the key.
pub open spec fn versions_apart(s: StateView, k: Seq<u8>) -> bool {
    forall|a: usize, b: usize, x: Entry, y: Entry|
        stands(s, a) && stands(s, b) && a != b && #[trigger] order::entries(s.tables[a]).contains(x)
            && #[trigger] order::entries(s.tables[b]).contains(y) && x.key.key == k && y.key.key == k
            ==> x.key.ts != y.key.ts
}

/// A table that stands in the state has the entry.
spec fn present(s: StateView, x: Entry) -> bool {
    exists|id: usize| stands(s, id) && #[trigger] order::entries(s.tables[id]).contains(x)
}

/// The layers hold the entries of the tables that stand in the state.
proof fn lemma_present(s: StateView, next: int, x: Entry)
    requires
        order::orderly(s, next),
    ensures
        present(s, x) <==> exists|i: int|
            0 <= i < layers(s).len() && (#[trigger] layers(s)[i]).entries.contains(x),
{
    let n = s.l0.len() as int;
    lemma_layers(s, next);
    if present(s, x) {
        let id = choose|id: usize|
            stands(s, id) && #[trigger] order::entries(s.tables[id]).contains(x);
        if s.l0.contains(id) {
            let i = choose|i: int| 0 <= i < s.l0.len() && s.l0[i] == id;
            assert(layers(s)[i] == l0_layers(s)[i]);
        } else {
            let i = choose|i: int|
                0 <= i < s.levels.len() && (#[trigger] s.levels[i]).1.contains(id);
            lemma_in_layer(s, next, i, id, x);
            assert(layers(s)[n + i] == level_layers(s)[i]);
        }
    }
    if exists|i: int| 0 <= i < layers(s).len() && (#[trigger] layers(s)[i]).entries.contains(x) {
        let i = choose|i: int|
            0 <= i < layers(s).len() && (#[trigger] layers(s)[i]).entries.contains(x);
        if i < n {
            assert(layers(s)[i] == l0_layers(s)[i]);
            assert(s.l0.contains(s.l0[i]));
            assert(stands(s, s.l0[i]));
        } else {
            assert(layers(s)[i] == level_layers(s)[i - n]);
            assert(level_layers(s)[i - n].entries.contains(x));
            let list = s.levels[i - n].1;
            let c = choose|c: int|
                0 <= c < list.len() && order::entries(s.tables[#[trigger] list[c]]).contains(x);
            assert(list.contains(list[c]));
            assert(stands(s, list[c]));
        }
    }
}

/// What is read is the newest version in all tables.
proof fn lemma_top(s: StateView, next: int, k: Seq<u8>, ts: u64)
    requires
        order::orderly(s, next),
    ensures
        read(s, k, ts) == shown(best(layers(s), k, ts)),
        best(layers(s), k, ts) matches Some(e) ==> present(s, e) && e.key.key == k && e.key.ts <= ts,
        forall|x: Entry| #[trigger]
            present(s, x) && x.key.key == k && x.key.ts <= ts ==> best(layers(s), k, ts) is Some
                && x.key.ts <= (best(layers(s), k, ts)->0).key.ts,
{
    let ss = layers(s);
    lemma_layers(s, next);
    lemma_best_merged(ss, k, ts);
    lemma_best(ss, k, ts);
    if best(ss, k, ts) is Some {
        let e = best(ss, k, ts)->0;
        lemma_present(s, next, e);
        let i = choose|i: int| #[trigger]
            version_in(ss, i, e, k, ts) && forall|j: int, x: Entry| #[trigger]
                version_in(ss, j, x, k, ts) ==> x.key.ts <= e.key.ts && (j < i ==> x.key.ts
                    < e.key.ts);
        assert(version_in(ss, i, e, k, ts));
        assert(ss[i].entries.contains(e));
    }
    assert forall|x: Entry| #[trigger]
        present(s, x) && x.key.key == k && x.key.ts <= ts implies best(ss, k, ts) is Some
        && x.key.ts <= (best(ss, k, ts)->0).key.ts by {
        lemma_present(s, next, x);
        let i = choose|i: int| 0 <= i < ss.len() && (#[trigger] ss[i]).entries.contains(x);
        assert(version_in(ss, i, x, k, ts));
    }
}

/// Where no two tables have the same version, entries with one key and time are the same.
proof fn lemma_present_once(s: StateView, next: int, x: Entry, y: Entry)
    requires
        order::orderly(s, next),
        versions_apart(s, x.key.key),
        present(s, x),
        present(s, y),
        x.key == y.key,
    ensures
        x == y,
{
    let a = choose|id: usize| stands(s, id) && #[trigger] order::entries(s.tables[id]).contains(x);
    let b = choose|id: usize| stands(s, id) && #[trigger] order::entries(s.tables[id]).contains(y);
    assert(a == b);
    lemma_stands_known(s, next, a);
    lemma_one_version(order::entries(s.tables[a]), x, y);
}

/// The tables that stand in the state are known and sound.
proof fn lemma_stands_known(s: StateView, next: int, id: usize)
    requires
        order::orderly(s, next),
        stands(s, id),
    ensures
        s.tables.dom().contains(id),
        id < next,
        order::sound_table(s.tables[id]),
        key::sorted(order::entries(s.tables[id])),
{
    if s.l0.contains(id) {
        let i = choose|i: int| 0 <= i < s.l0.len() && s.l0[i] == id;
        assert(s.tables.dom().contains(s.l0[i]));
    } else {
        let i = choose|i: int| 0 <= i < s.levels.len() && (#[trigger] s.levels[i]).1.contains(id);
        lemma_known(s, next, i, id);
    }
    assert(order::sound_table(s.tables[id]));
}

/// The tables of a task stand in the state.
proof fn lemma_file_stands(
    s: StateView,
    s2: StateView,
    t: LevelTaskView,
    new: Seq<TableView>,
    next: int,
    id: usize,
)
    requires
        replaces(s, s2, t, new, next),
        (t.upper + t.lower).contains(id),
    ensures
        stands(s, id),
{
    lemma_files(t, id);
    if t.lower.contains(id) {
        assert(s.levels[t.lower_level - 1].1.contains(id));
    } else if t.upper_level is Some {
        assert(s.levels[t.upper_level->0 - 1].1.contains(id));
    }
}

/// After a task there are the entries of the other tables and those that it kept.
proof fn lemma_present_after(
    s: StateView,
    s2: StateView,
    t: LevelTaskView,
    p: Plan,
    next: int,
    x: Entry,
)
    requires
        ran(s, s2, t, p, next),
    ensures
        ({
            let kept = p.rules.kept(task_source(s, t).entries, Seen::nothing());
            &&& present(s2, x) ==> present(s, x)
            &&& kept.contains(x) ==> present(s2, x)
            &&& present(s, x) && !held(s, t.upper + t.lower, x) ==> present(s2, x)
        }),
{
    let files = t.upper + t.lower;
    let source = task_source(s, t);
    let src = source.entries;
    let kept = p.rules.kept(src, Seen::nothing());
    let new = compact::tables_from(p.output(source), next);
    let low = t.lower_level - 1;
    let after = next + new.len();
    order::lemma_level_source_sound(s, t);
    lemma_new_entries(p, source, next);
    gc::lemma_kept_sorted(p.rules, src, Seen::nothing());
    if kept.contains(x) {
        let j = choose|j: int| 0 <= j < new.len() && order::entries(#[trigger] new[j]).contains(x);
        let id = new[j].id;
        assert(compact::ids_of(new)[j] == id);
        assert(compact::ids_of(new).contains(id));
        assert(s2.levels[low].1.contains(id));
        assert(stands(s2, id));
        assert(order::entries(s2.tables[id]).contains(x));
    }
    if present(s2, x) {
        let id = choose|id: usize|
            stands(s2, id) && #[trigger] order::entries(s2.tables[id]).contains(x);
        lemma_stands_known(s2, after, id);
        if s2.l0.contains(id) {
            assert(stands(s, id));
            lemma_stands_known(s, next, id);
            assert(order::entries(s.tables[id]).contains(x));
        } else {
            let i = choose|i: int|
                0 <= i < s2.levels.len() && (#[trigger] s2.levels[i]).1.contains(id);
            assert(s2.levels[i].1.contains(id));
            if s.levels[i].1.contains(id) && !files.contains(id) {
                assert(stands(s, id));
                lemma_stands_known(s, next, id);
                assert(order::entries(s.tables[id]).contains(x));
            } else {
                let output = compact::ids_of(new);
                let j = choose|j: int| 0 <= j < output.len() && output[j] == id;
                assert(new[j].id == id);
                assert(in_tables(new, x));
                assert(kept.contains(x));
                assert(src.contains(x));
                let c = choose|c: int|
                    0 <= c < files.len() && order::entries(s.tables[#[trigger] files[c]]).contains(
                        x,
                    );
                assert(files.contains(files[c]));
                lemma_file_stands(s, s2, t, new, next, files[c]);
            }
        }
    }
    if present(s, x) && !held(s, files, x) {
        let id = choose|id: usize|
            stands(s, id) && #[trigger] order::entries(s.tables[id]).contains(x);
        lemma_stands_known(s, next, id);
        assert(!files.contains(id));
        if s.l0.contains(id) {
            if t.upper_level is None {
                lemma_files(t, id);
            }
            assert(s2.l0.contains(id));
            assert(stands(s2, id));
        } else {
            let i = choose|i: int|
                0 <= i < s.levels.len() && (#[trigger] s.levels[i]).1.contains(id);
            assert(s2.levels[i].1.contains(id));
            assert(stands(s2, id));
        }
        lemma_stands_known(s2, after, id);
        assert(order::entries(s2.tables[id]).contains(x));
    }
}

/// What a task compacts has no older newest version than its tables.
proof fn lemma_source_top(
    s: StateView,
    next: int,
    t: LevelTaskView,
    x: Entry,
    ts: u64,
)
    requires
        order::orderly(s, next),
        order::all_sound(s, t.upper),
        order::all_sound(s, t.lower),
        leveled::is_run(s.tables, t.lower),
        t.upper_level is Some ==> leveled::is_run(s.tables, t.upper),
        t.upper_level is None ==> t.upper == s.l0,
        held(s, t.upper + t.lower, x),
        x.key.ts <= ts,
    ensures
        snapshot::newest(task_source(s, t).entries, x.key.key, ts) matches Some(y) && y.key.ts
            >= x.key.ts,
{
    let k = x.key.key;
    let id = choose|id: usize| #[trigger]
        (t.upper + t.lower).contains(id) && order::entries(s.tables[id]).contains(x);
    lemma_files(t, id);
    lemma_source_best(s, next, t, k, ts);
    if t.lower.contains(id) {
        lemma_run_top(s, t.lower, id, x, ts);
    } else if t.upper_level is Some {
        lemma_run_top(s, t.upper, id, x, ts);
    } else {
        lemma_l0_top(s, next, id, x, ts);
    }
}

/// What a run hands out has no older newest version than one of its tables.
proof fn lemma_run_top(s: StateView, list: Seq<usize>, id: usize, x: Entry, ts: u64)
    requires
        order::all_sound(s, list),
        leveled::is_run(s.tables, list),
        list.contains(id),
        order::entries(s.tables[id]).contains(x),
        x.key.ts <= ts,
    ensures
        snapshot::newest(joined(s, list).entries, x.key.key, ts) matches Some(y) && y.key.ts
            >= x.key.ts,
{
    lemma_joined(s, list);
    assert(held(s, list, x));
    lemma_held(s, list, x);
    let es = joined(s, list).entries;
    assert(joined(s, list).entries.contains(x));
    let i = choose|i: int| 0 <= i < es.len() && es[i] == x;
    snapshot::lemma_newest_is_newest(es, x.key.key, ts, i);
}

/// The best version of L0 is no older than one in a table of L0.
proof fn lemma_l0_top(s: StateView, next: int, id: usize, x: Entry, ts: u64)
    requires
        order::orderly(s, next),
        s.l0.contains(id),
        order::entries(s.tables[id]).contains(x),
        x.key.ts <= ts,
    ensures
        best(l0_layers(s), x.key.key, ts) matches Some(y) && y.key.ts >= x.key.ts,
{
    lemma_layers(s, next);
    let i = choose|i: int| 0 <= i < s.l0.len() && s.l0[i] == id;
    assert(l0_layers(s)[i].entries.contains(x));
    lemma_best(l0_layers(s), x.key.key, ts);
    assert(version_in(l0_layers(s), i, x, x.key.key, ts));
}

/// Compacting single tables into a level that is not the last one changes no read at the watermark
/// or later, whichever versions of the key the task takes, where no two tables have the same
/// version of it and it has no prefix that is filtered out.
pub proof fn lemma_leveled_keeps_reads_apart(
    s: StateView,
    next: int,
    o: LeveledCompactionOptions,
    p: Plan,
    k: Seq<u8>,
    ts: u64,
)
    requires
        order::orderly(s, next),
        next >= 0,
        leveled::plannable(s, o),
        leveled::leveled_task(s, o) is Some,
        ({
            let t = leveled::leveled_task(s, o)->0;
            let out = p.output(compact::level_source(s, t)->Ok_0);
            &&& order::storable(out)
            &&& next + out.tables.len() <= usize::MAX
            &&& !t.to_bottom
        }),
        !p.rules.to_bottom,
        versions_apart(s, k),
        ts >= p.rules.watermark,
        !gc::filtered(p.rules.prefixes, k),
    ensures
        ({
            let t = leveled::leveled_task(s, o)->0;
            let out = p.output(compact::level_source(s, t)->Ok_0);
            let new = compact::tables_from(out, next);
            read(compact::installed(s, TaskView::Leveled(t), new), k, ts) == read(s, k, ts)
        }),
{
    let t = leveled::leveled_task(s, o)->0;
    let out = p.output(compact::level_source(s, t)->Ok_0);
    let new = compact::tables_from(out, next);
    let s2 = compact::installed(s, TaskView::Leveled(t), new);
    lemma_leveled_ran(s, next, o, p);
    lemma_apart_read(s, s2, t, p, next, k, ts);
}

#[verifier::spinoff_prover]
proof fn lemma_apart_read(
    s: StateView,
    s2: StateView,
    t: LevelTaskView,
    p: Plan,
    next: int,
    k: Seq<u8>,
    ts: u64,
)
    requires
        ran(s, s2, t, p, next),
        !p.rules.to_bottom,
        versions_apart(s, k),
        ts >= p.rules.watermark,
        !gc::filtered(p.rules.prefixes, k),
    ensures
        read(s2, k, ts) == read(s, k, ts),
{
    let source = task_source(s, t);
    let kept = p.rules.kept(source.entries, Seen::nothing());
    let after = next + compact::tables_from(p.output(source), next).len();
    let b = best(layers(s), k, ts);
    let b2 = best(layers(s2), k, ts);
    lemma_top(s, next, k, ts);
    lemma_top(s2, after, k, ts);
    if b2 is Some {
        lemma_present_after(s, s2, t, p, next, b2->0);
    }
    if b is Some {
        let e = b->0;
        lemma_present_after(s, s2, t, p, next, e);
        if held(s, t.upper + t.lower, e) {
            lemma_source_top(s, next, t, e, ts);
            order::lemma_level_source_sound(s, t);
            gc::lemma_kept_newest(p.rules, source.entries, Seen::nothing(), k, ts);
            let y = snapshot::newest(source.entries, k, ts)->0;
            snapshot::lemma_newest_member(kept, k, ts);
            assert(kept.contains(y));
            lemma_present_after(s, s2, t, p, next, y);
            assert(present(s, y));
            lemma_present_once(s, next, y, e);
        }
        assert(present(s2, e));
        lemma_present_once(s, next, b2->0, e);
    }
}

/// The entries of a table lie between its first and its last key.
proof fn lemma_between(t: TableView, x: Entry)
    requires
        order::sound_table(t),
        order::entries(t).contains(x),
    ensures
        key::key_le(t.first_key, x.key),
        key::key_le(x.key, t.last_key),
{
    let es = order::entries(t);
    let i = choose|i: int| 0 <= i < es.len() && es[i] == x;
    if i > 0 {
        assert(key::key_lt(es[0].key, es[i].key));
    }
    if i < es.len() - 1 {
        assert(key::key_lt(es[i].key, es[es.len() - 1].key));
    }
}

/// An entry of an old table that a task left is in no other table.
proof fn lemma_not_again(
    s: StateView,
    s2: StateView,
    t: LevelTaskView,
    p: Plan,
    next: int,
    a: usize,
    b: usize,
    x: Entry,
)
    requires
        ran(s, s2, t, p, next),
        versions_apart(s, x.key.key),
        a != b,
        stands(s2, a),
        stands(s2, b),
        a < next,
        s2.tables == compact::stored(
            s.tables,
            compact::tables_from(p.output(task_source(s, t)), next),
        ).remove_keys((t.upper + t.lower).to_set()),
        order::entries(s2.tables[a]).contains(x),
    ensures
        !order::entries(s2.tables[b]).contains(x),
{
    let source = task_source(s, t);
    let new = compact::tables_from(p.output(source), next);
    let kept = p.rules.kept(source.entries, Seen::nothing());
    let files = t.upper + t.lower;
    lemma_left(s, s2, t, new, next, a);
    if b < next {
        lemma_left(s, s2, t, new, next, b);
    } else if order::entries(s2.tables[b]).contains(x) {
        lemma_came(s, s2, t, new, next, b);
        order::lemma_level_source_sound(s, t);
        lemma_new_entries(p, source, next);
        gc::lemma_kept_sorted(p.rules, source.entries, Seen::nothing());
        assert(new[b - next].id == b);
        assert(in_tables(new, x));
        assert(kept.contains(x));
        assert(source.entries.contains(x));
        let c = choose|c: int|
            0 <= c < files.len() && order::entries(s.tables[#[trigger] files[c]]).contains(x);
        assert(files.contains(files[c]));
        lemma_file_stands(s, s2, t, new, next, files[c]);
    }
}

/// An old table that stands in the state after a task stood there before and is not one of the task.
proof fn lemma_left(
    s: StateView,
    s2: StateView,
    t: LevelTaskView,
    new: Seq<TableView>,
    next: int,
    id: usize,
)
    requires
        replaces(s, s2, t, new, next),
        stands(s2, id),
        id < next,
        s2.tables == compact::stored(s.tables, new).remove_keys((t.upper + t.lower).to_set()),
    ensures
        stands(s, id),
        !(t.upper + t.lower).contains(id),
        s2.tables[id] == s.tables[id],
{
    let files = t.upper + t.lower;
    lemma_stands_known(s2, next + new.len(), id);
    assert(files.to_set().contains(id) <==> files.contains(id));
    if s2.l0.contains(id) {
        assert(stands(s, id));
    } else {
        let i = choose|i: int| 0 <= i < s2.levels.len() && (#[trigger] s2.levels[i]).1.contains(id);
        assert(s2.levels[i].1.contains(id));
        if !s.levels[i].1.contains(id) {
            let output = compact::ids_of(new);
            let j = choose|j: int| 0 <= j < output.len() && output[j] == id;
            assert(new[j].id == next + j);
        }
    }
}

/// A new table that stands in the state after a task is one of its output, in the lower level.
proof fn lemma_came(
    s: StateView,
    s2: StateView,
    t: LevelTaskView,
    new: Seq<TableView>,
    next: int,
    id: usize,
)
    requires
        replaces(s, s2, t, new, next),
        stands(s2, id),
        id >= next,
    ensures
        s2.levels[t.lower_level - 1].1.contains(id),
        id < next + new.len(),
        s2.tables[id] == new[id - next],
{
    if s2.l0.contains(id) {
        assert(stands(s, id));
        lemma_stands_known(s, next, id);
    } else {
        let i = choose|i: int| 0 <= i < s2.levels.len() && (#[trigger] s2.levels[i]).1.contains(id);
        assert(s2.levels[i].1.contains(id));
        if s.levels[i].1.contains(id) {
            assert(stands(s, id));
            lemma_stands_known(s, next, id);
        }
        let output = compact::ids_of(new);
        let j = choose|j: int| 0 <= j < output.len() && output[j] == id;
        assert(new[j].id == next + j);
    }
}

/// Compacting single tables leaves no two tables with the same version of a key where there were
/// none before.
#[verifier::spinoff_prover]
pub proof fn lemma_leveled_keeps_apart(
    s: StateView,
    next: int,
    o: LeveledCompactionOptions,
    p: Plan,
    k: Seq<u8>,
)
    requires
        order::orderly(s, next),
        next >= 0,
        leveled::plannable(s, o),
        leveled::leveled_task(s, o) is Some,
        ({
            let t = leveled::leveled_task(s, o)->0;
            let out = p.output(compact::level_source(s, t)->Ok_0);
            &&& order::storable(out)
            &&& next + out.tables.len() <= usize::MAX
            &&& p.rules.to_bottom == t.to_bottom
        }),
        versions_apart(s, k),
    ensures
        ({
            let t = leveled::leveled_task(s, o)->0;
            let out = p.output(compact::level_source(s, t)->Ok_0);
            let new = compact::tables_from(out, next);
            versions_apart(compact::installed(s, TaskView::Leveled(t), new), k)
        }),
{
    let t = leveled::leveled_task(s, o)->0;
    let out = p.output(compact::level_source(s, t)->Ok_0);
    let new = compact::tables_from(out, next);
    let s2 = compact::installed(s, TaskView::Leveled(t), new);
    lemma_leveled_ran(s, next, o, p);
    assert forall|a: usize, b: usize, x: Entry, y: Entry|
        stands(s2, a) && stands(s2, b) && a != b && #[trigger] order::entries(
            s2.tables[a],
        ).contains(x) && #[trigger] order::entries(s2.tables[b]).contains(y) && x.key.key == k
            && y.key.key == k implies x.key.ts != y.key.ts by {
        if x.key.ts == y.key.ts {
            lemma_present_after(s, s2, t, p, next, x);
            lemma_present_after(s, s2, t, p, next, y);
            lemma_present_once(s, next, x, y);
            if a < next {
                lemma_not_again(s, s2, t, p, next, a, b, x);
            } else if b < next {
                lemma_not_again(s, s2, t, p, next, b, a, x);
            } else {
                lemma_new_apart(s, s2, t, new, next, a, b, x);
            }
        }
    }
}

/// Two new tables have no entry in common.
proof fn lemma_new_apart(
    s: StateView,
    s2: StateView,
    t: LevelTaskView,
    new: Seq<TableView>,
    next: int,
    a: usize,
    b: usize,
    x: Entry,
)
    requires
        replaces(s, s2, t, new, next),
        a != b,
        stands(s2, a),
        stands(s2, b),
        a >= next,
        b >= next,
        order::entries(s2.tables[a]).contains(x),
    ensures
        !order::entries(s2.tables[b]).contains(x),
{
    let after = next + new.len();
    let list = s2.levels[t.lower_level - 1].1;
    lemma_came(s, s2, t, new, next, a);
    lemma_came(s, s2, t, new, next, b);
    lemma_level_list(s2, after, t.lower_level - 1);
    lemma_stands_known(s2, after, a);
    lemma_stands_known(s2, after, b);
    lemma_between(s2.tables[a], x);
    let i = choose|i: int| 0 <= i < list.len() && list[i] == a;
    let j = choose|j: int| 0 <= j < list.len() && list[j] == b;
    if order::entries(s2.tables[b]).contains(x) {
        lemma_between(s2.tables[b], x);
        if i < j {
            assert(leveled::ends_before(s2.tables, list[i], list[j]));
            leveled::lemma_le_lt(x.key, s2.tables[a].last_key, s2.tables[b].first_key);
            leveled::lemma_le_lt(x.key, s2.tables[b].first_key, x.key);
        } else {
            assert(leveled::ends_before(s2.tables, list[j], list[i]));
            leveled::lemma_le_lt(x.key, s2.tables[b].last_key, s2.tables[a].first_key);
            leveled::lemma_le_lt(x.key, s2.tables[a].first_key, x.key);
        }
    }
}

} // verus!
