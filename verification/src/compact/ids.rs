//! Lists of table numbers.

use std::collections::HashSet;

use vstd::prelude::*;

use crate::key;
use crate::key::Key;
use crate::lsm_storage;
use crate::lsm_storage::LsmStorageState;
use crate::table::TableView;

verus! {

/// A copy of a list.
pub fn copy_ids(list: &Vec<usize>) -> (r: Vec<usize>)
    ensures
        r@ == list@,
{
    let mut out: Vec<usize> = Vec::new();
    extend_ids(&mut out, list.as_slice());
    assert(out@ =~= list@);
    out
}

/// Appends a list to a list.
pub fn extend_ids(out: &mut Vec<usize>, list: &[usize])
    ensures
        final(out)@ == old(out)@ + list@,
{
    out.extend_from_slice(list);
    assert(out@ =~= old(out)@ + list@);
}

/// A copy of the first `n` levels.
pub fn copy_levels(levels: &Vec<(usize, Vec<usize>)>, n: usize) -> (r: Vec<(usize, Vec<usize>)>)
    requires
        n <= levels@.len(),
    ensures
        lsm_storage::levels_view(r@) == lsm_storage::levels_view(levels@).take(n as int),
{
    let mut out: Vec<(usize, Vec<usize>)> = Vec::new();
    let mut i: usize = 0;
    while i < n
        invariant
            i <= n <= levels@.len(),
            out@.len() == i,
            forall|j: int|
                0 <= j < i ==> (#[trigger] out@[j]).0 == levels@[j].0 && out@[j].1@ == levels@[j].1@,
        decreases n - i,
    {
        out.push((levels[i].0, copy_ids(&levels[i].1)));
        i += 1;
    }
    assert(lsm_storage::levels_view(out@) =~= lsm_storage::levels_view(levels@).take(n as int));
    out
}

/// The numbers of a longer prefix of a list.
pub proof fn lemma_take_to_set(s: Seq<usize>, i: int)
    requires
        0 <= i < s.len(),
    ensures
        s.take(i + 1).to_set() == s.take(i).to_set().insert(s[i]),
{
    let a = s.take(i + 1);
    let b = s.take(i);
    assert forall|x: usize| a.to_set().contains(x) <==> b.to_set().insert(s[i]).contains(x) by {
        if a.contains(x) {
            let j = choose|j: int| 0 <= j < a.len() && a[j] == x;
            if j < i {
                assert(b[j] == x);
            }
        }
        if b.contains(x) {
            let j = choose|j: int| 0 <= j < b.len() && b[j] == x;
            assert(a[j] == x);
        }
        if x == s[i] {
            assert(a[i] == x);
        }
    }
    assert(a.to_set() =~= b.to_set().insert(s[i]));
}

/// The list without the first occurrence of each member of a set.
pub open spec fn without(list: Seq<usize>, set: Set<usize>) -> Seq<usize>
    decreases list.len(),
{
    if list.len() == 0 {
        Seq::empty()
    } else if set.contains(list[0]) {
        without(list.drop_first(), set.remove(list[0]))
    } else {
        seq![list[0]] + without(list.drop_first(), set)
    }
}

/// Every number of `part` occurs in `list`.
pub open spec fn covers(list: Seq<usize>, part: Seq<usize>) -> bool {
    forall|i: int| 0 <= i < part.len() ==> list.contains(#[trigger] part[i])
}

/// In a list without duplicates nothing is left of the set, and nothing else is missing.
pub proof fn lemma_without(list: Seq<usize>, set: Set<usize>)
    requires
        list.no_duplicates(),
    ensures
        without(list, set) == list.filter(|id: usize| !set.contains(id)),
    decreases list.len(),
{
    let p = |id: usize| !set.contains(id);
    reveal(Seq::filter);
    if list.len() == 0 {
        assert(list.filter(p) =~= Seq::empty());
    } else {
        let rest = list.drop_first();
        assert(list =~= seq![list[0]] + rest);
        lemma_filter_first(list, p);
        assert(rest.no_duplicates()) by {
            assert forall|i: int, j: int| 0 <= i < j < rest.len() implies rest[i] != rest[j] by {
                assert(rest[i] == list[i + 1] && rest[j] == list[j + 1]);
            }
        }
        if set.contains(list[0]) {
            let small = set.remove(list[0]);
            lemma_without(rest, small);
            lemma_filter_same(rest, p, |id: usize| !small.contains(id));
        } else {
            lemma_without(rest, set);
        }
    }
}

proof fn lemma_filter_first(list: Seq<usize>, p: spec_fn(usize) -> bool)
    requires
        list.len() > 0,
    ensures
        list.filter(p) == if p(list[0]) {
            seq![list[0]] + list.drop_first().filter(p)
        } else {
            list.drop_first().filter(p)
        },
    decreases list.len(),
{
    reveal(Seq::filter);
    if list.len() == 1 {
        assert(list.drop_last() =~= Seq::empty());
        assert(list.drop_first() =~= Seq::empty());
        assert(list.drop_last().filter(p) =~= Seq::empty());
        assert(list.drop_first().filter(p) =~= Seq::empty());
        assert(list.filter(p) =~= if p(list[0]) {
            seq![list[0]] + list.drop_first().filter(p)
        } else {
            list.drop_first().filter(p)
        });
    } else {
        lemma_filter_first(list.drop_last(), p);
        assert(list.drop_last().drop_first() =~= list.drop_first().drop_last());
        assert(list.filter(p) =~= if p(list[0]) {
            seq![list[0]] + list.drop_first().filter(p)
        } else {
            list.drop_first().filter(p)
        });
    }
}

proof fn lemma_filter_same(
    list: Seq<usize>,
    p: spec_fn(usize) -> bool,
    q: spec_fn(usize) -> bool,
)
    requires
        forall|i: int| 0 <= i < list.len() ==> p(#[trigger] list[i]) == q(list[i]),
    ensures
        list.filter(p) == list.filter(q),
    decreases list.len(),
{
    reveal(Seq::filter);
    if list.len() > 0 {
        let init = list.drop_last();
        assert forall|i: int| 0 <= i < init.len() implies p(#[trigger] init[i]) == q(init[i]) by {
            assert(init[i] == list[i]);
        }
        lemma_filter_same(init, p, q);
    }
}

/// Removes the first occurrence of each of some numbers from a list.
pub fn remove_ids(list: &Vec<usize>, part: &Vec<usize>) -> (r: Vec<usize>)
    ensures
        r@ == without(list@, part@.to_set()),
{
    broadcast use vstd::std_specs::hash::group_hash_axioms;

    let mut set: HashSet<usize> = HashSet::new();
    let mut i: usize = 0;
    while i < part.len()
        invariant
            i <= part@.len(),
            forall|x: usize| #[trigger]
                set@.contains(x) <==> exists|j: int| 0 <= j < i && part@[j] == x,
        decreases part@.len() - i,
    {
        let ghost before = set@;
        set.insert(part[i]);
        assert forall|x: usize| #[trigger] set@.contains(x) <==> exists|j: int|
            0 <= j < i + 1 && part@[j] == x by {
            if set@.contains(x) {
                if x == part@[i as int] {
                    assert(part@[i as int] == x);
                } else {
                    assert(before.contains(x));
                }
            }
            if exists|j: int| 0 <= j < i + 1 && part@[j] == x {
                let j = choose|j: int| 0 <= j < i + 1 && part@[j] == x;
                if j < i {
                    assert(before.contains(x));
                }
            }
        }
        i += 1;
    }
    assert(set@ =~= part@.to_set());
    let ghost whole = without(list@, set@);
    let mut out: Vec<usize> = Vec::new();
    i = 0;
    assert(list@.skip(0) =~= list@);
    assert(out@ + whole =~= whole);
    while i < list.len()
        invariant
            i <= list@.len(),
            whole == out@ + without(list@.skip(i as int), set@),
        decreases list@.len() - i,
    {
        let ghost rest = list@.skip(i as int);
        assert(rest.drop_first() =~= list@.skip(i + 1));
        let ghost before = out@;
        let ghost left = set@;
        let found: bool = set.remove(&list[i]);
        assert(rest[0] == list@[i as int]);
        assert(set@ =~= left.remove(list@[i as int]));
        if !found {
            out.push(list[i]);
            assert(set@ =~= left);
            assert(before + (seq![list@[i as int]] + without(rest.drop_first(), set@)) =~= out@
                + without(rest.drop_first(), set@));
        }
        i += 1;
    }
    assert(list@.skip(i as int) =~= Seq::empty());
    assert(out@ + without(list@.skip(i as int), set@) =~= out@);
    out
}

/// The first key of a table.
pub open spec fn first_key_of(tables: Map<usize, TableView>, id: usize) -> Key {
    tables[id].first_key
}

/// A number inserted behind those whose tables do not begin behind its table.
pub open spec fn inserted(tables: Map<usize, TableView>, sorted: Seq<usize>, id: usize) -> Seq<
    usize,
>
    decreases sorted.len(),
{
    if sorted.len() > 0 && key::key_lt(
        first_key_of(tables, id),
        first_key_of(tables, sorted.last()),
    ) {
        inserted(tables, sorted.drop_last(), id).push(sorted.last())
    } else {
        sorted.push(id)
    }
}

/// A list in the order of the first keys of the tables. Tables with equal first keys keep their
/// order.
pub open spec fn sorted_by_first_key(tables: Map<usize, TableView>, list: Seq<usize>) -> Seq<usize>
    decreases list.len(),
{
    if list.len() == 0 {
        Seq::empty()
    } else {
        inserted(tables, sorted_by_first_key(tables, list.drop_last()), list.last())
    }
}

/// The first keys do not descend.
pub open spec fn ascending(tables: Map<usize, TableView>, list: Seq<usize>) -> bool {
    forall|i: int, j: int|
        0 <= i < j < list.len() ==> !key::key_lt(
            first_key_of(tables, #[trigger] list[j]),
            first_key_of(tables, #[trigger] list[i]),
        )
}

proof fn lemma_not_lt_transitive(a: Key, b: Key, c: Key)
    requires
        !key::key_lt(b, a),
        !key::key_lt(c, b),
    ensures
        !key::key_lt(c, a),
{
    if key::key_lt(c, a) {
        key::lemma_key_lt_total(b, c);
        if key::key_lt(b, c) {
            key::lemma_key_lt_transitive(b, c, a);
        }
    }
}

proof fn lemma_inserted(tables: Map<usize, TableView>, sorted: Seq<usize>, id: usize)
    requires
        ascending(tables, sorted),
    ensures
        ascending(tables, inserted(tables, sorted, id)),
        inserted(tables, sorted, id).to_multiset() == sorted.push(id).to_multiset(),
        inserted(tables, sorted, id).len() == sorted.len() + 1,
        forall|i: int|
            0 <= i < inserted(tables, sorted, id).len() ==> sorted.push(id).contains(
                #[trigger] inserted(tables, sorted, id)[i],
            ),
    decreases sorted.len(),
{
    broadcast use vstd::seq_lib::group_to_multiset_ensures;

    let r = inserted(tables, sorted, id);
    let k = first_key_of(tables, id);
    if sorted.len() > 0 && key::key_lt(k, first_key_of(tables, sorted.last())) {
        let init = sorted.drop_last();
        lemma_inserted(tables, init, id);
        let q = inserted(tables, init, id);
        assert(r == q.push(sorted.last()));
        assert(init.push(sorted.last()) =~= sorted);
        assert(r.to_multiset() =~= sorted.push(id).to_multiset());
        assert forall|i: int| 0 <= i < r.len() implies sorted.push(id).contains(#[trigger] r[i]) by {
            if i < q.len() {
                assert(init.push(id).contains(q[i]));
                let j = choose|j: int| 0 <= j < init.push(id).len() && init.push(id)[j] == q[i];
                if j < init.len() {
                    assert(sorted.push(id)[j] == r[i]);
                } else {
                    assert(sorted.push(id)[sorted.len() as int] == r[i]);
                }
            } else {
                assert(sorted.push(id)[sorted.len() - 1] == r[i]);
            }
        }
        assert forall|i: int, j: int| 0 <= i < j < r.len() implies !key::key_lt(
            first_key_of(tables, #[trigger] r[j]),
            first_key_of(tables, #[trigger] r[i]),
        ) by {
            if j < q.len() {
                assert(q[i] == r[i] && q[j] == r[j]);
            } else {
                assert(init.push(id).contains(q[i]));
                let h = choose|h: int| 0 <= h < init.push(id).len() && init.push(id)[h] == q[i];
                if h < init.len() {
                    assert(sorted[h] == q[i]);
                } else {
                    key::lemma_key_lt_asymmetric(k, first_key_of(tables, sorted.last()));
                }
            }
        }
    } else {
        assert forall|i: int| 0 <= i < r.len() implies sorted.push(id).contains(#[trigger] r[i]) by {
            assert(sorted.push(id)[i] == r[i]);
        }
        assert forall|i: int, j: int| 0 <= i < j < r.len() implies !key::key_lt(
            first_key_of(tables, #[trigger] r[j]),
            first_key_of(tables, #[trigger] r[i]),
        ) by {
            if j == sorted.len() && i < sorted.len() - 1 {
                lemma_not_lt_transitive(
                    first_key_of(tables, sorted[i]),
                    first_key_of(tables, sorted.last()),
                    k,
                );
            }
        }
    }
}

/// Sorting keeps the numbers and puts the first keys in order.
pub proof fn lemma_sorted_by_first_key(tables: Map<usize, TableView>, list: Seq<usize>)
    ensures
        ascending(tables, sorted_by_first_key(tables, list)),
        sorted_by_first_key(tables, list).to_multiset() == list.to_multiset(),
        sorted_by_first_key(tables, list).len() == list.len(),
        forall|i: int|
            0 <= i < list.len() ==> list.contains(#[trigger] sorted_by_first_key(tables, list)[i]),
    decreases list.len(),
{
    broadcast use vstd::seq_lib::group_to_multiset_ensures;

    if list.len() > 0 {
        let init = list.drop_last();
        lemma_sorted_by_first_key(tables, init);
        let s = sorted_by_first_key(tables, init);
        let r = sorted_by_first_key(tables, list);
        lemma_inserted(tables, s, list.last());
        assert(init.push(list.last()) =~= list);
        assert forall|i: int| 0 <= i < list.len() implies list.contains(#[trigger] r[i]) by {
            assert(s.push(list.last()).contains(r[i]));
            let j = choose|j: int|
                0 <= j < s.push(list.last()).len() && s.push(list.last())[j] == r[i];
            if j < s.len() {
                assert(init.contains(s[j]));
                let h = choose|h: int| 0 <= h < init.len() && init[h] == s[j];
                assert(list[h] == r[i]);
            } else {
                assert(list[list.len() - 1] == r[i]);
            }
        }
    } else {
        assert(sorted_by_first_key(tables, list) =~= list);
    }
}

/// Sorts a list by the first keys of the tables.
pub fn sort_by_first_key(state: &LsmStorageState, list: &Vec<usize>) -> (r: Vec<usize>)
    requires
        list@.len() >= 2 ==> state@.knows(list@),
    ensures
        r@ == sorted_by_first_key(state@.tables, list@),
{
    let ghost tables = state@.tables;
    let mut out: Vec<usize> = Vec::new();
    let mut i: usize = 0;
    assert(list@.take(0) =~= Seq::empty());
    while i < list.len()
        invariant
            i <= list@.len(),
            tables == state@.tables,
            list@.len() >= 2 ==> state@.knows(list@),
            out@ == sorted_by_first_key(tables, list@.take(i as int)),
        decreases list@.len() - i,
    {
        let id: usize = list[i];
        let ghost s = out@;
        proof {
            assert(list@.take(i + 1).drop_last() =~= list@.take(i as int));
            lemma_sorted_by_first_key(tables, list@.take(i as int));
        }
        let mut pos: usize = out.len();
        assert(s.take(pos as int) =~= s);
        assert(s.skip(pos as int) =~= Seq::empty());
        assert(inserted(tables, s, id) =~= inserted(tables, s.take(pos as int), id) + s.skip(
            pos as int,
        ));
        while pos > 0 && begins_before(state, id, out[pos - 1])
            invariant
                pos <= out@.len(),
                out@ == s,
                i < list@.len(),
                id == list@[i as int],
                tables == state@.tables,
                list@.len() >= 2 ==> state@.knows(list@),
                s.len() == i,
                forall|j: int| 0 <= j < s.len() ==> list@.take(i as int).contains(#[trigger] s[j]),
                inserted(tables, s, id) == inserted(tables, s.take(pos as int), id) + s.skip(
                    pos as int,
                ),
            decreases pos,
        {
            proof {
                let t = s.take(pos as int);
                assert(t.drop_last() =~= s.take(pos - 1));
                assert(inserted(tables, s.take(pos - 1), id).push(t.last()) + s.skip(pos as int)
                    =~= inserted(tables, s.take(pos - 1), id) + s.skip(pos - 1));
            }
            pos -= 1;
        }
        proof {
            let t = s.take(pos as int);
            assert(inserted(tables, t, id) == t.push(id));
            assert(t.push(id) + s.skip(pos as int) =~= s.insert(pos as int, id));
        }
        out.insert(pos, id);
        i += 1;
    }
    assert(list@.take(i as int) =~= list@);
    out
}

/// Whether table `a` begins before table `b`.
fn begins_before(state: &LsmStorageState, a: usize, b: usize) -> (r: bool)
    requires
        state@.tables.dom().contains(a),
        state@.tables.dom().contains(b),
    ensures
        r == key::key_lt(first_key_of(state@.tables, a), first_key_of(state@.tables, b)),
{
    match (state.table(a), state.table(b)) {
        (Some(ta), Some(tb)) => ta.first_key().as_key_slice().precedes(
            tb.first_key().as_key_slice(),
        ),
        _ => false,
    }
}

} // verus!
