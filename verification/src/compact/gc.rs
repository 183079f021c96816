//! Which versions of keys a compaction keeps, and how it splits its output.

use vstd::prelude::*;

use crate::error::StorageError;
use crate::iterators::Stream;
use crate::key;
use crate::key::Entry;
use crate::snapshot;
use crate::table::builder;
use crate::table::builder::BuilderView;

verus! {

/// What a compaction may drop: versions that are hidden at the watermark and later, where the
/// output is the last level also the marks of deleted keys, and keys with given prefixes.
#[verifier::ext_equal]
pub struct Rules {
    pub watermark: u64,
    pub to_bottom: bool,
    pub prefixes: Seq<Seq<u8>>,
}

/// What is remembered of the entries so far: the last key, and whether no version of it up to the
/// watermark was seen.
#[verifier::ext_equal]
pub struct Seen {
    pub last: Seq<u8>,
    pub fresh: bool,
}

impl Seen {
    /// Nothing was seen.
    pub open spec fn nothing() -> Seen {
        Seen { last: Seq::empty(), fresh: true }
    }

    /// No version of the key of `e` up to the watermark was seen.
    pub open spec fn fresh_for(self, e: Entry) -> bool {
        e.key.key != self.last || self.fresh
    }
}

/// A key begins with one of the prefixes.
pub open spec fn filtered(prefixes: Seq<Seq<u8>>, k: Seq<u8>) -> bool {
    exists|i: int| 0 <= i < prefixes.len() && (#[trigger] prefixes[i]).is_prefix_of(k)
}

impl Rules {
    /// Whether an entry is kept. Versions behind the watermark are. Of the others only the newest
    /// one of a key can be.
    pub open spec fn keeps(self, seen: Seen, e: Entry) -> bool {
        e.key.ts > self.watermark || {
            &&& seen.fresh_for(e)
            &&& !(self.to_bottom && e.value.len() == 0)
            &&& !filtered(self.prefixes, e.key.key)
        }
    }

    /// What is remembered after an entry.
    pub open spec fn after(self, seen: Seen, e: Entry) -> Seen {
        Seen { last: e.key.key, fresh: e.key.ts > self.watermark && seen.fresh_for(e) }
    }

    /// The entries that are kept.
    pub open spec fn kept(self, es: Seq<Entry>, seen: Seen) -> Seq<Entry>
        decreases es.len(),
    {
        if es.len() == 0 {
            Seq::empty()
        } else {
            let rest = self.kept(es.skip(1), self.after(seen, es[0]));
            if self.keeps(seen, es[0]) {
                seq![es[0]] + rest
            } else {
                rest
            }
        }
    }
}

/// How a compaction runs: what it drops, and the sizes of its blocks and tables.
#[verifier::ext_equal]
pub struct Plan {
    pub rules: Rules,
    pub block_size: usize,
    pub target_size: usize,
}

/// The data blocks of the tables that a compaction writes, and the error that ends it.
#[verifier::ext_equal]
pub struct Output {
    pub tables: Seq<Seq<Seq<Entry>>>,
    pub fault: Option<StorageError>,
}

impl Output {
    /// The output with one more table in front.
    pub open spec fn behind(self, table: Seq<Seq<Entry>>) -> Output {
        Output { tables: seq![table] + self.tables, fault: self.fault }
    }
}

impl Plan {
    /// The builder after an entry was dealt with.
    pub open spec fn fed(self, seen: Seen, b: BuilderView, e: Entry) -> BuilderView {
        if self.rules.keeps(seen, e) {
            b.added(e)
        } else {
            b
        }
    }

    /// A table ends when its finished blocks reach the target size and the next entry, if there is
    /// one, has another key than the last one.
    pub open spec fn splits(self, b: BuilderView, last: Seq<u8>, rest: Seq<Entry>) -> bool {
        &&& builder::chunks_bytes(b.done).len() >= self.target_size
        &&& rest.len() == 0 || rest[0].key.key != last
    }

    /// What a compaction writes for a stream, given the entries in the current table.
    pub open spec fn run(self, s: Stream, seen: Seen, b: BuilderView) -> Output
        decreases s.entries.len(),
    {
        if s.entries.len() == 0 {
            Output {
                tables: if b.all().len() > 0 {
                    seq![b.chunks()]
                } else {
                    Seq::empty()
                },
                fault: None,
            }
        } else {
            let e = s.entries[0];
            let fed = self.fed(seen, b, e);
            let next = self.rules.after(seen, e);
            let rest = Stream { entries: s.entries.skip(1), fault: s.fault };
            if s.at_fault() {
                Output { tables: Seq::empty(), fault: s.fault }
            } else if self.splits(fed, e.key.key, rest.entries) {
                let more = self.run(rest, next, BuilderView::empty(self.block_size));
                if fed.all().len() > 0 {
                    more.behind(fed.chunks())
                } else {
                    more
                }
            } else {
                self.run(rest, next, fed)
            }
        }
    }

    /// What a compaction writes for a stream.
    #[verifier::opaque]
    pub open spec fn output(self, s: Stream) -> Output {
        self.run(s, Seen::nothing(), BuilderView::empty(self.block_size))
    }
}

/// The entries of tables, one behind the other.
pub open spec fn entries_of(tables: Seq<Seq<Seq<Entry>>>) -> Seq<Entry>
    decreases tables.len(),
{
    if tables.len() == 0 {
        Seq::empty()
    } else {
        builder::flat(tables[0]) + entries_of(tables.skip(1))
    }
}

/// The output holds exactly the entries that are kept, in their order.
pub proof fn lemma_run_entries(p: Plan, s: Stream, seen: Seen, b: BuilderView)
    requires
        s.fault is None,
    ensures
        p.run(s, seen, b).fault is None,
        entries_of(p.run(s, seen, b).tables) == b.all() + p.rules.kept(s.entries, seen),
    decreases s.entries.len(),
{
    let out = p.run(s, seen, b);
    if s.entries.len() == 0 {
        builder::lemma_chunks_all(b);
        if b.all().len() > 0 {
            assert(out.tables.skip(1) =~= Seq::empty());
            assert(entries_of(out.tables.skip(1)) =~= Seq::empty());
            assert(entries_of(out.tables) =~= b.all() + p.rules.kept(s.entries, seen));
        } else {
            assert(entries_of(out.tables) =~= b.all() + p.rules.kept(s.entries, seen));
        }
    } else {
        let e = s.entries[0];
        let fed = p.fed(seen, b, e);
        let next = p.rules.after(seen, e);
        let rest = Stream { entries: s.entries.skip(1), fault: s.fault };
        let tail = p.rules.kept(rest.entries, next);
        builder::lemma_added_all(b, e);
        assert(fed.all() + tail =~= b.all() + p.rules.kept(s.entries, seen));
        if p.splits(fed, e.key.key, rest.entries) {
            let empty = BuilderView::empty(p.block_size);
            lemma_run_entries(p, rest, next, empty);
            let more = p.run(rest, next, empty);
            assert(empty.all() =~= Seq::empty());
            assert(entries_of(more.tables) =~= tail);
            if fed.all().len() > 0 {
                builder::lemma_chunks_all(fed);
                assert(out.tables.skip(1) =~= more.tables);
                assert(entries_of(out.tables) =~= fed.all() + tail);
            } else {
                assert(fed.all() + tail =~= tail);
            }
        } else {
            lemma_run_entries(p, rest, next, fed);
        }
    }
}

/// No key of the entries is behind `k`.
spec fn none_behind(es: Seq<Entry>, k: Seq<u8>) -> bool {
    forall|i: int| 0 <= i < es.len() ==> key::bytes_le((#[trigger] es[i]).key.key, k)
}

/// What is kept is among the entries, and stays sorted.
pub proof fn lemma_kept_sorted(r: Rules, es: Seq<Entry>, seen: Seen)
    requires
        key::sorted(es),
    ensures
        key::sorted(r.kept(es, seen)),
        forall|x: Entry| #[trigger] r.kept(es, seen).contains(x) ==> es.contains(x),
    decreases es.len(),
{
    if es.len() > 0 {
        let rest = es.skip(1);
        let next = r.after(seen, es[0]);
        key::lemma_rest_sorted(es);
        lemma_kept_sorted(r, rest, next);
        let k = r.kept(es, seen);
        let t = r.kept(rest, next);
        assert forall|x: Entry| t.contains(x) implies #[trigger] es.contains(x) by {
            assert(rest.contains(x));
            let i = choose|i: int| 0 <= i < rest.len() && rest[i] == x;
            assert(es[i + 1] == x);
        }
        if r.keeps(seen, es[0]) {
            assert(k == seq![es[0]] + t);
            assert forall|x: Entry| #[trigger] k.contains(x) implies es.contains(x) by {
                let i = choose|i: int| 0 <= i < k.len() && k[i] == x;
                if i == 0 {
                    assert(es[0] == x);
                } else {
                    assert(t[i - 1] == x);
                    assert(t.contains(x));
                }
            }
            assert forall|i: int, j: int| 0 <= i < j < k.len() implies key::key_lt(
                #[trigger] k[i].key,
                #[trigger] k[j].key,
            ) by {
                assert(k[j] == t[j - 1]);
                if i > 0 {
                    assert(k[i] == t[i - 1]);
                } else {
                    assert(t.contains(t[j - 1]));
                    let h = choose|h: int| 0 <= h < rest.len() && rest[h] == t[j - 1];
                    assert(es[h + 1] == k[j]);
                }
            }
        } else {
            assert forall|x: Entry| #[trigger] k.contains(x) implies es.contains(x) by {
                assert(t.contains(x));
            }
        }
    }
}

/// Once a version of a key up to the watermark was seen, no other one is kept.
proof fn lemma_hidden_dropped(r: Rules, es: Seq<Entry>, seen: Seen, k: Seq<u8>, ts: u64)
    requires
        key::sorted(es),
        key::none_before(es, k),
        seen.last == k,
        !seen.fresh,
        forall|i: int|
            0 <= i < es.len() && (#[trigger] es[i]).key.key == k ==> es[i].key.ts <= r.watermark,
    ensures
        snapshot::newest(r.kept(es, seen), k, ts) is None,
    decreases es.len(),
{
    if es.len() > 0 {
        let e = es[0];
        let rest = es.skip(1);
        key::lemma_rest_sorted(es);
        let next = r.after(seen, e);
        if e.key.key == k {
            assert forall|i: int|
                0 <= i < rest.len() && (#[trigger] rest[i]).key.key == k implies rest[i].key.ts
                <= r.watermark by {
                assert(rest[i] == es[i + 1]);
            }
            assert forall|i: int| 0 <= i < rest.len() implies key::bytes_le(
                k,
                (#[trigger] rest[i]).key.key,
            ) by {
                assert(rest[i] == es[i + 1]);
            }
            lemma_hidden_dropped(r, rest, next, k, ts);
        } else {
            lemma_kept_sorted(r, es, seen);
            snapshot::lemma_newest_member(r.kept(es, seen), k, ts);
            if snapshot::newest(r.kept(es, seen), k, ts) is Some {
                let x = snapshot::newest(r.kept(es, seen), k, ts)->0;
                assert(es.contains(x));
                let i = choose|i: int| 0 <= i < es.len() && es[i] == x;
                assert(key::bytes_le(k, es[0].key.key));
                assert(key::key_lt(es[0].key, es[i].key));
                if key::bytes_lt(e.key.key, k) {
                    key::lemma_bytes_lt_asymmetric(e.key.key, k);
                }
            }
        }
    }
}

pub(crate) proof fn lemma_kept_newest(r: Rules, es: Seq<Entry>, seen: Seen, k: Seq<u8>, ts: u64)
    requires
        key::sorted(es),
        ts >= r.watermark,
        k != seen.last || seen.fresh,
        !filtered(r.prefixes, k),
    ensures
        ({
            let before = snapshot::newest(es, k, ts);
            let after = snapshot::newest(r.kept(es, seen), k, ts);
            ||| after == before
            ||| r.to_bottom && after is None && before is Some && (before->0).value.len() == 0
        }),
    decreases es.len(),
{
    if es.len() > 0 {
        let e = es[0];
        let rest = es.skip(1);
        let next = r.after(seen, e);
        let tail = r.kept(rest, next);
        key::lemma_rest_sorted(es);
        assert(es.drop_first() =~= rest);
        if r.keeps(seen, e) {
            assert((seq![e] + tail).drop_first() =~= tail);
        }
        if e.key.key != k || e.key.ts > ts {
            lemma_kept_newest(r, rest, next, k, ts);
        } else if !r.keeps(seen, e) {
            assert forall|i: int|
                0 <= i < rest.len() && (#[trigger] rest[i]).key.key == k implies rest[i].key.ts
                <= r.watermark by {}
            lemma_hidden_dropped(r, rest, next, k, ts);
        }
    }
}

/// A compaction changes no read at the watermark or later: what is visible stays visible with the
/// same value, unless the key has a prefix that is filtered out.
pub proof fn lemma_compaction_keeps_reads(r: Rules, es: Seq<Entry>, k: Seq<u8>, ts: u64)
    requires
        key::sorted(es),
        ts >= r.watermark,
        !filtered(r.prefixes, k),
    ensures
        snapshot::visible(r.kept(es, Seen::nothing()), k, ts) == snapshot::visible(es, k, ts),
{
    lemma_kept_newest(r, es, Seen::nothing(), k, ts);
}

/// Above the last level a compaction also keeps the marks of deleted keys, which hide versions in
/// lower levels.
pub proof fn lemma_compaction_keeps_marks(r: Rules, es: Seq<Entry>, k: Seq<u8>, ts: u64)
    requires
        key::sorted(es),
        ts >= r.watermark,
        !filtered(r.prefixes, k),
        !r.to_bottom,
    ensures
        snapshot::newest(r.kept(es, Seen::nothing()), k, ts) == snapshot::newest(es, k, ts),
{
    lemma_kept_newest(r, es, Seen::nothing(), k, ts);
}

/// A prefix filter takes away only versions that are up to the watermark: a newer version is still
/// read.
pub proof fn lemma_filter_spares_new(r: Rules, es: Seq<Entry>, k: Seq<u8>, ts: u64)
    requires
        key::sorted(es),
        snapshot::newest(es, k, ts) matches Some(e) && e.key.ts > r.watermark,
    ensures
        snapshot::newest(r.kept(es, Seen::nothing()), k, ts) == snapshot::newest(es, k, ts),
{
    lemma_new_kept(r, es, Seen::nothing(), k, ts);
}

proof fn lemma_new_kept(r: Rules, es: Seq<Entry>, seen: Seen, k: Seq<u8>, ts: u64)
    requires
        snapshot::newest(es, k, ts) matches Some(e) && e.key.ts > r.watermark,
    ensures
        snapshot::newest(r.kept(es, seen), k, ts) == snapshot::newest(es, k, ts),
    decreases es.len(),
{
    let e = es[0];
    let rest = es.skip(1);
    let next = r.after(seen, e);
    let tail = r.kept(rest, next);
    assert(es.drop_first() =~= rest);
    if r.keeps(seen, e) {
        assert((seq![e] + tail).drop_first() =~= tail);
    }
    if e.key.key != k || e.key.ts > ts {
        lemma_new_kept(r, rest, next, k, ts);
    }
}

/// What has been seen sums up the first `n` entries.
spec fn sums_up(seen: Seen, watermark: u64, es: Seq<Entry>, n: int) -> bool {
    if n == 0 {
        seen == Seen::nothing()
    } else {
        &&& seen.last == es[n - 1].key.key
        &&& seen.fresh <==> forall|j: int|
            0 <= j < n && (#[trigger] es[j]).key.key == seen.last ==> es[j].key.ts > watermark
    }
}

/// A version that is neither hidden from every time from the watermark on, nor a mark that the last
/// level does not need, nor dropped by a prefix.
spec fn stays(r: Rules, es: Seq<Entry>, x: Entry) -> bool {
    x.key.ts > r.watermark || {
        &&& forall|j: int|
            0 <= j < es.len() && (#[trigger] es[j]).key.key == x.key.key && es[j].key.ts
                <= r.watermark ==> es[j].key.ts <= x.key.ts
        &&& !(r.to_bottom && x.value.len() == 0)
        &&& forall|i: int|
            0 <= i < r.prefixes.len() ==> !(#[trigger] r.prefixes[i]).is_prefix_of(x.key.key)
    }
}

/// Of sorted entries, those with one key stand together, the newer ones first.
proof fn lemma_versions_together(es: Seq<Entry>, i: int, j: int, n: int)
    requires
        key::sorted(es),
        0 <= i <= j <= n < es.len(),
        es[i].key.key == es[n].key.key,
    ensures
        es[j].key.key == es[n].key.key,
        i < j ==> es[i].key.ts > es[j].key.ts,
{
    if i < j {
        assert(key::key_lt(es[i].key, es[j].key));
        if j < n {
            assert(key::key_lt(es[j].key, es[n].key));
        }
        key::lemma_bytes_lt_irreflexive(es[n].key.key);
        if key::bytes_lt(es[i].key.key, es[j].key.key) && j < n {
            key::lemma_bytes_le_chain(es[i].key.key, es[j].key.key, es[n].key.key);
        }
    }
}

proof fn lemma_first_stays(r: Rules, es: Seq<Entry>, n: int, seen: Seen)
    requires
        key::sorted(es),
        0 <= n < es.len(),
        sums_up(seen, r.watermark, es, n),
    ensures
        r.keeps(seen, es[n]) <==> stays(r, es, es[n]),
        sums_up(r.after(seen, es[n]), r.watermark, es, n + 1),
{
    let e = es[n];
    let next = r.after(seen, e);
    let none_seen = forall|j: int|
        0 <= j < n && (#[trigger] es[j]).key.key == e.key.key ==> es[j].key.ts > r.watermark;
    assert(seen.fresh_for(e) <==> none_seen) by {
        if n > 0 && e.key.key != seen.last {
            assert forall|j: int| 0 <= j < n && (#[trigger] es[j]).key.key == e.key.key implies es[j].key.ts
                > r.watermark by {
                lemma_versions_together(es, j, n - 1, n);
            }
        }
    }
    assert(next.fresh <==> forall|j: int|
        0 <= j < n + 1 && (#[trigger] es[j]).key.key == e.key.key ==> es[j].key.ts > r.watermark)
        by {
        if next.fresh {
        } else if e.key.ts > r.watermark {
            let j = choose|j: int|
                0 <= j < n && (#[trigger] es[j]).key.key == e.key.key && es[j].key.ts
                    <= r.watermark;
            assert(0 <= j < n + 1 && es[j].key.key == e.key.key);
        } else {
            assert(es[n].key.key == e.key.key);
        }
    }
    if e.key.ts <= r.watermark {
        let newest = forall|j: int|
            0 <= j < es.len() && (#[trigger] es[j]).key.key == e.key.key && es[j].key.ts
                <= r.watermark ==> es[j].key.ts <= e.key.ts;
        assert(none_seen <==> newest) by {
            if none_seen {
                assert forall|j: int|
                    0 <= j < es.len() && (#[trigger] es[j]).key.key == e.key.key && es[j].key.ts
                        <= r.watermark implies es[j].key.ts <= e.key.ts by {
                    if n < j {
                        lemma_versions_together(es, n, j, j);
                    }
                }
            }
            if newest {
                assert forall|j: int| 0 <= j < n && (#[trigger] es[j]).key.key == e.key.key implies es[j].key.ts
                    > r.watermark by {
                    lemma_versions_together(es, j, n, n);
                }
            }
        }
    }
}

proof fn lemma_kept_from(r: Rules, es: Seq<Entry>, n: int, seen: Seen, x: Entry)
    requires
        key::sorted(es),
        0 <= n <= es.len(),
        sums_up(seen, r.watermark, es, n),
    ensures
        r.kept(es.skip(n), seen).contains(x) <==> es.skip(n).contains(x) && stays(r, es, x),
    decreases es.len() - n,
{
    let left = es.skip(n);
    if n < es.len() {
        let rest = es.skip(n + 1);
        let tail = r.kept(rest, r.after(seen, es[n]));
        assert(left.skip(1) =~= rest);
        lemma_first_stays(r, es, n, seen);
        lemma_kept_from(r, es, n + 1, r.after(seen, es[n]), x);
        assert(left.contains(x) <==> x == es[n] || rest.contains(x)) by {
            assert(left =~= seq![es[n]] + rest);
            key::lemma_in_front(es[n], rest, x);
        }
        key::lemma_in_front(es[n], tail, x);
        if x == es[n] && rest.contains(x) {
            let i = choose|i: int| 0 <= i < rest.len() && rest[i] == x;
            assert(es[n + 1 + i] == x);
            key::lemma_key_lt_asymmetric(es[n].key, es[n + 1 + i].key);
        }
    }
}

/// Exactly which entries a compaction keeps: those above the watermark, and of the others the newest
/// version of each key, but no mark of a deletion where the output is the last level, and nothing
/// whose key begins with one of the prefixes.
pub proof fn lemma_kept_exactly(r: Rules, es: Seq<Entry>, x: Entry)
    requires
        key::sorted(es),
    ensures
        r.kept(es, Seen::nothing()).contains(x) <==> es.contains(x) && (x.key.ts > r.watermark || {
            &&& forall|j: int|
                0 <= j < es.len() && (#[trigger] es[j]).key.key == x.key.key && es[j].key.ts
                    <= r.watermark ==> es[j].key.ts <= x.key.ts
            &&& !(r.to_bottom && x.value.len() == 0)
            &&& forall|i: int|
                0 <= i < r.prefixes.len() ==> !(#[trigger] r.prefixes[i]).is_prefix_of(x.key.key)
        }),
{
    lemma_kept_from(r, es, 0, Seen::nothing(), x);
    assert(es.skip(0) =~= es);
}

/// No entry up to the watermark is kept whose key begins with any of the prefixes.
pub proof fn lemma_filtered_gone(r: Rules, es: Seq<Entry>, x: Entry)
    requires
        key::sorted(es),
        r.kept(es, Seen::nothing()).contains(x),
        x.key.ts <= r.watermark,
    ensures
        forall|i: int|
            0 <= i < r.prefixes.len() ==> !(#[trigger] r.prefixes[i]).is_prefix_of(x.key.key),
{
    lemma_kept_exactly(r, es, x);
}

/// A key is dropped by the prefixes exactly if it begins with one of them, byte for byte.
pub proof fn lemma_filtered(prefixes: Seq<Seq<u8>>, k: Seq<u8>)
    ensures
        filtered(prefixes, k) <==> exists|i: int|
            0 <= i < prefixes.len() && (#[trigger] prefixes[i]).len() <= k.len() && prefixes[i]
                == k.take(prefixes[i].len() as int),
{
    assert forall|p: Seq<u8>| #[trigger]
        p.is_prefix_of(k) <==> p.len() <= k.len() && p == k.take(p.len() as int) by {
        if p.is_prefix_of(k) {
            assert(p =~= k.take(p.len() as int));
        }
    }
}

/// The keys of each table are before those of the next ones, and no key is before `low`.
spec fn apart_from(tables: Seq<Seq<Seq<Entry>>>, low: Seq<u8>) -> bool {
    &&& forall|i: int| 0 <= i < tables.len() ==> key::none_before(
        builder::flat(#[trigger] tables[i]),
        low,
    )
    &&& keys_apart(tables)
}

/// All versions of a key are in one table, and the keys of each table are before those of the next
/// ones.
pub open spec fn keys_apart(tables: Seq<Seq<Seq<Entry>>>) -> bool {
    forall|i: int, j: int, a: int, b: int|
        0 <= i < j < tables.len() && 0 <= a < builder::flat(tables[i]).len() && 0 <= b
            < builder::flat(tables[j]).len() ==> key::bytes_lt(
            (#[trigger] builder::flat(tables[i])[a]).key.key,
            (#[trigger] builder::flat(tables[j])[b]).key.key,
        )
}

/// A table is put in front of others whose keys are all behind its keys.
proof fn lemma_apart_behind(
    table: Seq<Seq<Entry>>,
    more: Seq<Seq<Seq<Entry>>>,
    low: Seq<u8>,
    mid: Seq<u8>,
    high: Seq<u8>,
)
    requires
        key::none_before(builder::flat(table), low),
        none_behind(builder::flat(table), mid),
        key::bytes_le(low, mid),
        key::bytes_lt(mid, high),
        apart_from(more, high),
    ensures
        apart_from(seq![table] + more, low),
{
    let all = seq![table] + more;
    assert forall|i: int| 0 <= i < all.len() implies key::none_before(
        builder::flat(#[trigger] all[i]),
        low,
    ) by {
        if i > 0 {
            let f = builder::flat(more[i - 1]);
            assert(key::none_before(f, high));
            assert forall|b: int| 0 <= b < f.len() implies key::bytes_le(
                low,
                (#[trigger] f[b]).key.key,
            ) by {
                key::lemma_bytes_le_chain(low, mid, high);
                key::lemma_bytes_le_chain(low, high, f[b].key.key);
            }
        }
    }
    assert forall|i: int, j: int, a: int, b: int|
        0 <= i < j < all.len() && 0 <= a < builder::flat(all[i]).len() && 0 <= b < builder::flat(
            all[j],
        ).len() implies key::bytes_lt(
        (#[trigger] builder::flat(all[i])[a]).key.key,
        (#[trigger] builder::flat(all[j])[b]).key.key,
    ) by {
        assert(all[j] == more[j - 1]);
        let y = builder::flat(more[j - 1])[b].key.key;
        if i == 0 {
            let x = builder::flat(table)[a].key.key;
            assert(key::none_before(builder::flat(more[j - 1]), high));
            key::lemma_bytes_le_chain(x, mid, high);
            key::lemma_bytes_le_chain(x, high, y);
            if mid == high {
                key::lemma_bytes_lt_irreflexive(mid);
            }
        } else {
            assert(all[i] == more[i - 1]);
        }
    }
}

proof fn lemma_run_apart(p: Plan, s: Stream, seen: Seen, b: BuilderView, low: Seq<u8>)
    requires
        s.fault is None,
        key::sorted(s.entries),
        key::none_before(s.entries, seen.last),
        none_behind(b.all(), seen.last),
        key::none_before(b.all(), low),
        key::bytes_le(low, seen.last),
    ensures
        apart_from(p.run(s, seen, b).tables, low),
    decreases s.entries.len(), 0nat,
{
    let out = p.run(s, seen, b);
    if s.entries.len() == 0 {
        builder::lemma_chunks_all(b);
        if b.all().len() > 0 {
            assert(out.tables.len() == 1);
        }
        assert(apart_from(out.tables, low));
    } else {
        let e = s.entries[0];
        let k = e.key.key;
        let fed = p.fed(seen, b, e);
        let next = p.rules.after(seen, e);
        let rest = Stream { entries: s.entries.skip(1), fault: s.fault };
        key::lemma_rest_sorted(s.entries);
        builder::lemma_added_all(b, e);
        assert(key::bytes_le(seen.last, k)) by {
            assert(key::bytes_le(seen.last, s.entries[0].key.key));
        }
        key::lemma_bytes_le_chain(low, seen.last, k);
        assert(none_behind(fed.all(), k)) by {
            assert forall|i: int| 0 <= i < fed.all().len() implies key::bytes_le(
                (#[trigger] fed.all()[i]).key.key,
                k,
            ) by {
                if i < b.all().len() {
                    assert(fed.all()[i] == b.all()[i]);
                    key::lemma_bytes_le_chain(b.all()[i].key.key, seen.last, k);
                }
            }
        }
        assert(key::none_before(fed.all(), low)) by {
            assert forall|i: int| 0 <= i < fed.all().len() implies key::bytes_le(
                low,
                (#[trigger] fed.all()[i]).key.key,
            ) by {
                if i < b.all().len() {
                    assert(fed.all()[i] == b.all()[i]);
                }
            }
        }
        if p.splits(fed, k, rest.entries) {
            let empty = BuilderView::empty(p.block_size);
            assert(empty.all() =~= Seq::empty());
            builder::lemma_chunks_all(fed);
            if rest.entries.len() == 0 {
                let more = p.run(rest, next, empty);
                assert(more.tables =~= Seq::empty());
                if fed.all().len() > 0 {
                    assert(out.tables =~= seq![fed.chunks()]);
                }
                assert(apart_from(out.tables, low));
            } else {
                let high = rest.entries[0].key.key;
                lemma_run_apart_from_next(p, rest, next, high);
                let more = p.run(rest, next, empty);
                assert(key::bytes_le(k, rest.entries[0].key.key));
                if fed.all().len() > 0 {
                    lemma_apart_behind(fed.chunks(), more.tables, low, k, high);
                } else {
                    assert forall|i: int| 0 <= i < more.tables.len() implies key::none_before(
                        builder::flat(#[trigger] more.tables[i]),
                        low,
                    ) by {
                        let f = builder::flat(more.tables[i]);
                        assert(key::none_before(f, high));
                        assert forall|h: int| 0 <= h < f.len() implies key::bytes_le(
                            low,
                            (#[trigger] f[h]).key.key,
                        ) by {
                            key::lemma_bytes_le_chain(low, k, high);
                            key::lemma_bytes_le_chain(low, high, f[h].key.key);
                        }
                    }
                }
            }
        } else {
            assert(key::none_before(rest.entries, next.last));
            lemma_run_apart(p, rest, next, fed, low);
        }
    }
}

/// What a table that is begun anew holds is not before the next entry.
proof fn lemma_run_apart_from_next(p: Plan, s: Stream, seen: Seen, high: Seq<u8>)
    requires
        s.fault is None,
        key::sorted(s.entries),
        s.entries.len() > 0,
        s.entries[0].key.key == high,
        high != seen.last,
    ensures
        apart_from(p.run(s, seen, BuilderView::empty(p.block_size)).tables, high),
    decreases s.entries.len(), 1nat,
{
    let b = BuilderView::empty(p.block_size);
    // The first entry has another key than the last one, so what was seen before has no effect.
    let anew = Seen { last: high, fresh: true };
    let e = s.entries[0];
    assert(p.rules.keeps(seen, e) == p.rules.keeps(anew, e));
    assert(p.rules.after(seen, e) == p.rules.after(anew, e));
    assert(p.run(s, seen, b) == p.run(s, anew, b));
    assert(key::none_before(s.entries, high)) by {
        key::lemma_rest_sorted(s.entries);
        assert forall|i: int| 0 <= i < s.entries.len() implies key::bytes_le(
            high,
            (#[trigger] s.entries[i]).key.key,
        ) by {
            if i > 0 {
                assert(s.entries.skip(1)[i - 1] == s.entries[i]);
            }
        }
    }
    assert(b.all() =~= Seq::empty());
    lemma_run_apart(p, s, anew, b, high);
}

/// The tables that a compaction of sorted entries writes are in key order, and all versions of a
/// key are in one of them.
pub proof fn lemma_output_apart(p: Plan, s: Stream)
    requires
        s.fault is None,
        key::sorted(s.entries),
    ensures
        keys_apart(p.output(s).tables),
{
    reveal(Plan::output);
    let empty = Seq::<u8>::empty();
    let b = BuilderView::empty(p.block_size);
    assert(b.all() =~= Seq::empty());
    assert forall|i: int| 0 <= i < s.entries.len() implies key::bytes_le(
        empty,
        (#[trigger] s.entries[i]).key.key,
    ) by {
        assert(s.entries[i].key.key.len() == 0 ==> s.entries[i].key.key =~= empty);
    }
    lemma_run_apart(p, s, Seen::nothing(), b, empty);
}

/// A builder that got the entries one after the other.
pub open spec fn filled(block_size: usize, es: Seq<Entry>) -> BuilderView {
    es.fold_left(BuilderView::empty(block_size), |b: BuilderView, e: Entry| b.added(e))
}

/// At no change of key among the entries was the table large enough to be ended there.
spec fn not_ended_before(p: Plan, es: Seq<Entry>) -> bool {
    forall|n: int|
        0 < n < es.len() && (#[trigger] es[n]).key.key != es[n - 1].key.key ==> builder::chunks_bytes(
            filled(p.block_size, es.take(n)).done,
        ).len() < p.target_size
}

/// A builder in the middle of a table: it got its entries one after the other, and the table could
/// not have been ended before the next entry.
spec fn midway(p: Plan, s: Stream, b: BuilderView) -> bool {
    &&& b == filled(p.block_size, b.all())
    &&& not_ended_before(p, b.all())
    &&& b.all().len() > 0 && s.entries.len() > 0 && s.entries[0].key.key != b.all().last().key.key
        ==> builder::chunks_bytes(b.done).len() < p.target_size
}

/// A table that is ended where the plan says, or is the last one.
spec fn well_cut(p: Plan, tables: Seq<Seq<Seq<Entry>>>, i: int) -> bool {
    let es = builder::flat(tables[i]);
    &&& es.len() > 0
    &&& tables[i] == filled(p.block_size, es).chunks()
    &&& not_ended_before(p, es)
    &&& i < tables.len() - 1 ==> builder::chunks_bytes(filled(p.block_size, es).done).len() >= p.target_size
}

proof fn lemma_filled_push(block_size: usize, es: Seq<Entry>, e: Entry)
    ensures
        filled(block_size, es.push(e)) == filled(block_size, es).added(e),
{
    assert(es.push(e).drop_last() =~= es);
}

proof fn lemma_fed_midway(p: Plan, s: Stream, seen: Seen, b: BuilderView)
    requires
        s.entries.len() > 0,
        midway(p, s, b),
    ensures
        ({
            let fed = p.fed(seen, b, s.entries[0]);
            let rest = s.entries.skip(1);
            &&& fed == filled(p.block_size, fed.all())
            &&& not_ended_before(p, fed.all())
            &&& !p.splits(fed, s.entries[0].key.key, rest) ==> midway(
                p,
                Stream { entries: rest, fault: s.fault },
                fed,
            )
        }),
{
    let e = s.entries[0];
    let all = b.all();
    if p.rules.keeps(seen, e) {
        builder::lemma_added_all(b, e);
        lemma_filled_push(p.block_size, all, e);
        let more = all.push(e);
        assert forall|n: int|
            0 < n < more.len() && (#[trigger] more[n]).key.key != more[n - 1].key.key implies builder::chunks_bytes(
            filled(p.block_size, more.take(n)).done,
        ).len() < p.target_size by {
            if n < all.len() {
                assert(all[n] == more[n] && all[n - 1] == more[n - 1]);
                assert(more.take(n) =~= all.take(n));
            } else {
                assert(more.take(n) =~= all);
            }
        }
    }
}

proof fn lemma_filled_starts(p: Plan, s: Stream)
    ensures
        midway(p, s, BuilderView::empty(p.block_size)),
{
    let b = BuilderView::empty(p.block_size);
    assert(b.all() =~= Seq::empty());
}

proof fn lemma_cut_behind(p: Plan, fed: BuilderView, more: Seq<Seq<Seq<Entry>>>)
    requires
        fed == filled(p.block_size, fed.all()),
        not_ended_before(p, fed.all()),
        fed.all().len() > 0,
        more.len() > 0 ==> builder::chunks_bytes(fed.done).len() >= p.target_size,
        forall|i: int| 0 <= i < more.len() ==> #[trigger] well_cut(p, more, i),
    ensures
        forall|i: int|
            0 <= i < more.len() + 1 ==> #[trigger] well_cut(p, seq![fed.chunks()] + more, i),
{
    let all = seq![fed.chunks()] + more;
    builder::lemma_chunks_all(fed);
    assert forall|i: int| 0 <= i < more.len() + 1 implies #[trigger] well_cut(p, all, i) by {
        if i > 0 {
            assert(all[i] == more[i - 1]);
            assert(well_cut(p, more, i - 1));
        } else {
            assert(all[0] == fed.chunks());
        }
    }
}

#[verifier::spinoff_prover]
#[verifier::rlimit(40)]
proof fn lemma_run_cut(p: Plan, s: Stream, seen: Seen, b: BuilderView)
    requires
        s.fault is None,
        midway(p, s, b),
    ensures
        forall|i: int|
            0 <= i < p.run(s, seen, b).tables.len() ==> #[trigger] well_cut(
                p,
                p.run(s, seen, b).tables,
                i,
            ),
    decreases s.entries.len(),
{
    let empty = BuilderView::empty(p.block_size);
    if s.entries.len() > 0 {
        let e = s.entries[0];
        let fed = p.fed(seen, b, e);
        let next = p.rules.after(seen, e);
        let rest = Stream { entries: s.entries.skip(1), fault: s.fault };
        lemma_fed_midway(p, s, seen, b);
        if p.splits(fed, e.key.key, rest.entries) {
            lemma_filled_starts(p, rest);
            lemma_run_cut(p, rest, next, empty);
            if fed.all().len() > 0 {
                lemma_cut_behind(p, fed, p.run(rest, next, empty).tables);
            }
        } else {
            lemma_run_cut(p, rest, next, fed);
        }
    } else if b.all().len() > 0 {
        let none = Seq::<Seq<Seq<Entry>>>::empty();
        lemma_cut_behind(p, b, none);
        assert(seq![b.chunks()] + none =~= seq![b.chunks()]);
    }
}

/// How the output is cut into tables. The entries of a table fill one block after the other. Each
/// table but the last one has, without its last block, at least the target size; and no table goes on
/// to another key where it had that already.
pub proof fn lemma_output_cut(p: Plan, s: Stream, i: int)
    requires
        s.fault is None,
        0 <= i < p.output(s).tables.len(),
    ensures
        ({
            let table = p.output(s).tables[i];
            let es = builder::flat(table);
            &&& es.len() > 0
            &&& table == filled(p.block_size, es).chunks()
            &&& i < p.output(s).tables.len() - 1 ==> builder::chunks_bytes(
                table.drop_last(),
            ).len() >= p.target_size
            &&& forall|n: int|
                0 < n < es.len() && (#[trigger] es[n]).key.key != es[n - 1].key.key
                    ==> builder::chunks_bytes(
                    filled(p.block_size, es.take(n)).chunks().drop_last(),
                ).len() < p.target_size
        }),
{
    reveal(Plan::output);
    lemma_filled_starts(p, s);
    lemma_run_cut(p, s, Seen::nothing(), BuilderView::empty(p.block_size));
    let table = p.output(s).tables[i];
    let es = builder::flat(table);
    assert(well_cut(p, p.output(s).tables, i));
    lemma_filled_open(p.block_size, es);
    assert forall|n: int|
        0 < n < es.len() && (#[trigger] es[n]).key.key != es[n - 1].key.key implies builder::chunks_bytes(
        filled(p.block_size, es.take(n)).chunks().drop_last(),
    ).len() < p.target_size by {
        lemma_filled_open(p.block_size, es.take(n));
    }
}

proof fn lemma_filled_open(block_size: usize, es: Seq<Entry>)
    requires
        es.len() > 0,
    ensures
        filled(block_size, es).chunks().drop_last() == filled(block_size, es).done,
{
    lemma_filled_push(block_size, es.drop_last(), es.last());
    assert(es.drop_last().push(es.last()) =~= es);
    let b = filled(block_size, es);
    assert(b.chunks().drop_last() =~= b.done);
}

/// An error that is met when moving on in the source is the error of the compaction. Otherwise the
/// tables hold, one after the other, exactly the entries that are kept.
pub proof fn lemma_output_entries(p: Plan, s: Stream)
    ensures
        s.fault is None ==> p.output(s).fault is None && entries_of(p.output(s).tables)
            == p.rules.kept(s.entries, Seen::nothing()),
        s.entries.len() > 0 ==> p.output(s).fault == s.fault,
{
    reveal(Plan::output);
    let b = BuilderView::empty(p.block_size);
    if s.fault is None {
        lemma_run_entries(p, s, Seen::nothing(), b);
        assert(b.all() =~= Seq::empty());
        assert(b.all() + p.rules.kept(s.entries, Seen::nothing()) =~= p.rules.kept(
            s.entries,
            Seen::nothing(),
        ));
    }
    lemma_run_fault(p, s, Seen::nothing(), b);
}

proof fn lemma_run_fault(p: Plan, s: Stream, seen: Seen, b: BuilderView)
    ensures
        s.entries.len() > 0 ==> p.run(s, seen, b).fault == s.fault,
    decreases s.entries.len(),
{
    if s.entries.len() > 0 {
        let e = s.entries[0];
        let rest = Stream { entries: s.entries.skip(1), fault: s.fault };
        let next = p.rules.after(seen, e);
        lemma_run_fault(p, rest, next, BuilderView::empty(p.block_size));
        lemma_run_fault(p, rest, next, p.fed(seen, b, e));
    }
}

/// The entries of tables are those of each table one after the other.
pub proof fn lemma_entries_of(tables: Seq<Seq<Seq<Entry>>>)
    ensures
        entries_of(tables) == tables.map_values(|t: Seq<Seq<Entry>>| builder::flat(t)).flatten(),
    decreases tables.len(),
{
    let lists = tables.map_values(|t: Seq<Seq<Entry>>| builder::flat(t));
    if tables.len() > 0 {
        let rest = tables.skip(1);
        lemma_entries_of(rest);
        assert(lists.drop_first() =~= rest.map_values(|t: Seq<Seq<Entry>>| builder::flat(t)));
    }
}

} // verus!
