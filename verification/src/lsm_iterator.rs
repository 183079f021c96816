//! The iterators that users of the storage see.

use vstd::prelude::*;

use crate::error::StorageError;
use crate::iterators::{StorageIterator, Stream};
use crate::key;
use crate::key::{Entry, Key, KeySlice, Order, TS_DEFAULT};
use crate::snapshot;

verus! {

/// Where a range of keys ends or begins.
#[derive(Debug)]
pub enum Bound {
    Included(Vec<u8>),
    Excluded(Vec<u8>),
    Unbounded,
}

impl Bound {
    /// Whether `k` is on this side of the bound, taken as the end of a range.
    pub open spec fn admits(&self, k: Seq<u8>) -> bool {
        match self {
            Bound::Included(b) => key::bytes_le(k, b@),
            Bound::Excluded(b) => key::bytes_lt(k, b@),
            Bound::Unbounded => true,
        }
    }

    /// Whether `k` is on this side of the bound, taken as the start of a range.
    pub open spec fn allows(&self, k: Seq<u8>) -> bool {
        match self {
            Bound::Included(b) => key::bytes_le(b@, k),
            Bound::Excluded(b) => key::bytes_lt(b@, k),
            Bound::Unbounded => true,
        }
    }
}

/// An entry as users see it: without its timestamp.
pub open spec fn user_entry(e: Entry) -> Entry {
    Entry { key: Key { key: e.key.key, ts: TS_DEFAULT }, value: e.value }
}

/// What users see of a stream at time `read_ts` up to `end`. Versions that are too new are passed
/// over, the first other version of a key counts, and one with an empty value hides the key. The
/// key `prev` was dealt with before.
pub open spec fn user_view(s: Stream, end: Bound, read_ts: u64, prev: Seq<u8>) -> Stream
    decreases s.entries.len(),
{
    if s.entries.len() == 0 {
        s
    } else {
        let e = s.entries[0];
        let rest = Stream { entries: s.entries.skip(1), fault: s.fault };
        if e.key.ts > read_ts {
            user_view(rest, end, read_ts, prev)
        } else if !end.admits(e.key.key) {
            Stream::ended()
        } else if e.key.key == prev {
            user_view(rest, end, read_ts, prev)
        } else if e.value.len() == 0 {
            user_view(rest, end, read_ts, e.key.key)
        } else {
            user_view(rest, end, read_ts, e.key.key).after(seq![user_entry(e)])
        }
    }
}

/// What a search for the next entry that users see comes to: the entries from there on, and how
/// many moves it takes.
#[verifier::ext_equal]
pub struct Found {
    pub stream: Stream,
    pub moves: nat,
}

/// A search for the next entry that users see. The key `prev` was dealt with before.
pub open spec fn search(s: Stream, end: Bound, read_ts: u64, prev: Seq<u8>) -> Found
    decreases s.entries.len(),
{
    if s.entries.len() == 0 {
        Found { stream: s, moves: 0 }
    } else {
        let e = s.entries[0];
        if e.key.ts <= read_ts && (!end.admits(e.key.key) || e.key.key != prev && e.value.len()
            > 0) {
            Found { stream: s, moves: 0 }
        } else {
            let hidden = if e.key.ts <= read_ts {
                e.key.key
            } else {
                prev
            };
            let f = search(s.rest(), end, read_ts, hidden);
            Found { stream: f.stream, moves: f.moves + 1 }
        }
    }
}

/// How many entries are passed in the next `n` moves of an iterator over what users see.
pub open spec fn passed(s: Stream, end: Bound, read_ts: u64, n: nat) -> nat
    decreases n,
{
    if n == 0 || s.entries.len() == 0 {
        0
    } else {
        let f = search(s.rest(), end, read_ts, s.entries[0].key.key);
        1 + f.moves + passed(f.stream, end, read_ts, (n - 1) as nat)
    }
}

/// Hands out what users see of the entries of an inner iterator at one point in time.
pub struct LsmIterator<I: StorageIterator> {
    inner: I,
    end_bound: Bound,
    read_ts: u64,
    prev_key: Vec<u8>,
}

impl<I: StorageIterator> LsmIterator<I> {
    /// The iterator that is read.
    pub closed spec fn source(&self) -> I {
        self.inner
    }

    /// There are as many active iterators as in the iterator that is read.
    pub proof fn lemma_active(&self)
        ensures
            self.active_after(0) == self.source().active_after(0),
    {
    }

    /// Creates an iterator on the first entry that users see at time `read_ts`. The inner iterator
    /// is moved as far as the search for such an entry goes.
    pub fn new(iter: I, end_bound: Bound, read_ts: u64) -> (r: Result<Self, StorageError>)
        requires
            iter.wf(),
        ensures
            match r {
                Ok(it) => {
                    let f = search(iter.stream(), end_bound, read_ts, Seq::empty());
                    &&& it.wf()
                    &&& user_view(iter.stream(), end_bound, read_ts, Seq::empty()).landed() == Ok::<
                        Stream,
                        StorageError,
                    >(it.stream())
                    &&& forall|n: nat| #[trigger]
                        it.active_after(n) == iter.active_after(
                            f.moves + passed(f.stream, end_bound, read_ts, n),
                        )
                },
                Err(e) => user_view(iter.stream(), end_bound, read_ts, Seq::empty()).landed()
                    == Err::<Stream, StorageError>(e),
            },
    {
        let prev_key: Vec<u8> = Vec::new();
        assert(prev_key@ =~= Seq::empty());
        let mut s = LsmIterator { inner: iter, end_bound, read_ts, prev_key };
        match s.move_to_key() {
            Ok(()) => Ok(s),
            Err(e) => Err(e),
        }
    }

    /// Whether the inner iterator is on an entry before the end of the range.
    fn in_range(&self) -> (r: bool)
        requires
            self.inner.wf(),
        ensures
            r == (self.inner.stream().entries.len() > 0 && self.end_bound.admits(
                self.inner.stream().entries[0].key.key,
            )),
    {
        if !self.inner.is_valid() {
            return false;
        }
        let k: &[u8] = self.inner.key().key_ref();
        proof {
            key::lemma_bytes_lt_irreflexive(k@);
        }
        match &self.end_bound {
            Bound::Unbounded => true,
            Bound::Included(b) => {
                let o = key::order_bytes(k, b.as_slice());
                o == Order::Less || o == Order::Equal
            },
            Bound::Excluded(b) => key::order_bytes(k, b.as_slice()) == Order::Less,
        }
    }

    /// Moves on to the next entry that users see.
    fn move_to_key(&mut self) -> (r: Result<(), StorageError>)
        requires
            old(self).inner.wf(),
        ensures
            final(self).wf(),
            final(self).end_bound == old(self).end_bound,
            final(self).read_ts == old(self).read_ts,
            ({
                let f = search(
                    old(self).inner.stream(),
                    old(self).end_bound,
                    old(self).read_ts,
                    old(self).prev_key@,
                );
                &&& final(self).inner.stream() == f.stream
                &&& forall|m: nat| #[trigger]
                    final(self).inner.active_after(m) == old(self).inner.active_after(m + f.moves)
            }),
            match user_view(
                old(self).inner.stream(),
                old(self).end_bound,
                old(self).read_ts,
                old(self).prev_key@,
            ).landed() {
                Ok(s) => r == Ok::<(), StorageError>(()) && final(self).stream() == s,
                Err(e) => r == Err::<(), StorageError>(e) && final(self).stream()
                    == Stream::ended(),
            },
    {
        let ghost goal = user_view(
            self.inner.stream(),
            self.end_bound,
            self.read_ts,
            self.prev_key@,
        );
        let ghost whole = search(
            self.inner.stream(),
            self.end_bound,
            self.read_ts,
            self.prev_key@,
        );
        loop
            invariant
                self.inner.wf(),
                self.end_bound == old(self).end_bound,
                self.read_ts == old(self).read_ts,
                ({
                    let f = search(
                        self.inner.stream(),
                        self.end_bound,
                        self.read_ts,
                        self.prev_key@,
                    );
                    &&& f.stream == whole.stream
                    &&& f.moves <= whole.moves
                    &&& forall|m: nat| #[trigger]
                        self.inner.active_after(m) == old(self).inner.active_after(
                            m + (whole.moves - f.moves) as nat,
                        )
                }),
                whole == search(
                    old(self).inner.stream(),
                    old(self).end_bound,
                    old(self).read_ts,
                    old(self).prev_key@,
                ),
                goal == user_view(
                    self.inner.stream(),
                    self.end_bound,
                    self.read_ts,
                    self.prev_key@,
                ),
                goal == user_view(
                    old(self).inner.stream(),
                    old(self).end_bound,
                    old(self).read_ts,
                    old(self).prev_key@,
                ),
            decreases self.inner.stream().entries.len(),
        {
            proof {
                reveal_with_fuel(user_view, 2);
                self.inner.lemma_stream_wf();
            }
            if self.inner.is_valid() && self.inner.key().ts() > self.read_ts {
                match self.inner.next() {
                    Ok(()) => {},
                    Err(e) => {
                        return Err(e);
                    },
                }
                continue;
            }
            if !self.in_range() {
                return Ok(());
            }
            if key::bytes_eq(self.inner.key().key_ref(), self.prev_key.as_slice()) {
                match self.inner.next() {
                    Ok(()) => {},
                    Err(e) => {
                        return Err(e);
                    },
                }
                continue;
            }
            if self.inner.value().len() == 0 {
                self.prev_key = key::copy_bytes(self.inner.key().key_ref());
                match self.inner.next() {
                    Ok(()) => {},
                    Err(e) => {
                        return Err(e);
                    },
                }
                continue;
            }
            return Ok(());
        }
    }
}

impl<I: StorageIterator> StorageIterator for LsmIterator<I> {
    closed spec fn wf(&self) -> bool {
        let s = self.inner.stream();
        &&& self.inner.wf()
        &&& s.entries.len() > 0 ==> {
            let e = s.entries[0];
            &&& e.key.ts <= self.read_ts
            &&& self.end_bound.admits(e.key.key) ==> e.key.key != self.prev_key@ && e.value.len()
                > 0
        }
    }

    closed spec fn stream(&self) -> Stream {
        if self.inner.stream().entries.len() == 0 {
            Stream::ended()
        } else {
            user_view(self.inner.stream(), self.end_bound, self.read_ts, self.prev_key@)
        }
    }

    open spec fn tolerant(&self) -> bool {
        false
    }

    closed spec fn active_after(&self, n: nat) -> nat {
        self.inner.active_after(passed(self.inner.stream(), self.end_bound, self.read_ts, n))
    }

    proof fn lemma_stream_wf(&self) {
    }

    fn is_valid(&self) -> (r: bool) {
        self.in_range() && self.inner.value().len() > 0
    }

    fn key(&self) -> (r: KeySlice<'_>) {
        KeySlice::from_slice(self.inner.key().key_ref(), TS_DEFAULT)
    }

    fn value(&self) -> (r: &[u8]) {
        self.inner.value()
    }

    fn next(&mut self) -> (r: Result<(), StorageError>) {
        let ghost s = self.inner.stream();
        reveal_with_fuel(user_view, 2);
        self.prev_key = key::copy_bytes(self.inner.key().key_ref());
        match self.inner.next() {
            Ok(()) => {},
            Err(e) => {
                return Err(e);
            },
        }
        proof {
            let tail = user_view(self.inner.stream(), self.end_bound, self.read_ts, self.prev_key@);
            assert(tail.after(seq![user_entry(s.entries[0])]).entries.skip(1) =~= tail.entries);
        }
        self.move_to_key()
    }

    fn num_active_iterators(&self) -> (r: usize) {
        self.inner.num_active_iterators()
    }
}

/// Keeps users from moving an iterator that has nothing left, and keeps an iterator that failed
/// failed.
pub struct FusedIterator<I: StorageIterator> {
    iter: I,
    has_errored: bool,
}

impl<I: StorageIterator> FusedIterator<I> {
    /// The iterator that is read.
    pub closed spec fn source(&self) -> I {
        self.iter
    }

    /// There are as many active iterators as in the iterator that is read, and as long as no move
    /// failed, there is as much left to read.
    pub proof fn lemma_source(&self, n: nat)
        ensures
            self.active_after(n) == self.source().active_after(n),
            !self.errored() ==> self.stream() == self.source().stream(),
    {
    }

    /// Whether a move failed.
    pub closed spec fn errored(&self) -> bool {
        self.has_errored
    }

    /// An iterator of which a move failed has nothing left.
    pub proof fn lemma_errored_ended(&self)
        requires
            self.errored(),
        ensures
            self.stream() == Stream::ended(),
    {
    }

    /// Wraps an iterator.
    pub fn new(iter: I) -> (r: Self)
        requires
            iter.wf(),
        ensures
            r.wf(),
            !r.errored(),
            r.stream() == iter.stream(),
            forall|n: nat| #[trigger] r.active_after(n) == iter.active_after(n),
    {
        FusedIterator { iter, has_errored: false }
    }
}

impl<I: StorageIterator> StorageIterator for FusedIterator<I> {
    closed spec fn wf(&self) -> bool {
        self.iter.wf()
    }

    closed spec fn stream(&self) -> Stream {
        if self.has_errored {
            Stream::ended()
        } else {
            self.iter.stream()
        }
    }

    open spec fn tolerant(&self) -> bool {
        true
    }

    closed spec fn active_after(&self, n: nat) -> nat {
        self.iter.active_after(n)
    }

    proof fn lemma_stream_wf(&self) {
        self.iter.lemma_stream_wf();
    }

    fn is_valid(&self) -> (r: bool) {
        !self.has_errored && self.iter.is_valid()
    }

    fn key(&self) -> (r: KeySlice<'_>) {
        self.iter.key()
    }

    fn value(&self) -> (r: &[u8]) {
        self.iter.value()
    }

    fn next(&mut self) -> (r: Result<(), StorageError>)
        ensures
            old(self).errored() ==> *final(self) == *old(self) && r == Err::<(), StorageError>(
                StorageError::IteratorErrored,
            ),
            !old(self).errored() && old(self).stream().entries.len() == 0 ==> *final(self) == *old(
                self,
            ) && r == Ok::<(), StorageError>(()),
            final(self).errored() == (r is Err),
    {
        if self.has_errored {
            return Err(StorageError::IteratorErrored);
        }
        if self.iter.is_valid() {
            match self.iter.next() {
                Ok(()) => {},
                Err(e) => {
                    self.has_errored = true;
                    return Err(e);
                },
            }
        }
        Ok(())
    }

    fn num_active_iterators(&self) -> (r: usize) {
        self.iter.num_active_iterators()
    }
}

/// What is admitted by the end of a range, is admitted with everything before it.
proof fn lemma_admits_before(end: Bound, a: Seq<u8>, b: Seq<u8>)
    requires
        key::bytes_le(a, b),
        end.admits(b),
    ensures
        end.admits(a),
{
    match end {
        Bound::Included(c) => {
            key::lemma_bytes_le_chain(a, b, c@);
        },
        Bound::Excluded(c) => {
            if a != b {
                key::lemma_bytes_lt_transitive(a, b, c@);
            }
        },
        Bound::Unbounded => {},
    }
}

/// Users see a key with its value exactly where `visible` gives the value.
spec fn shows(v: Seq<Entry>, es: Seq<Entry>, end: Bound, read_ts: u64, prev: Seq<u8>) -> bool {
    &&& forall|x: Entry| #[trigger]
        v.contains(x) <==> {
            &&& x.key.ts == TS_DEFAULT
            &&& x.key.key != prev
            &&& end.admits(x.key.key)
            &&& snapshot::visible(es, x.key.key, read_ts) == Some(x.value)
        }
}

proof fn lemma_visible_occurs(es: Seq<Entry>, k: Seq<u8>, ts: u64, low: Seq<u8>)
    requires
        key::none_before(es, low),
        snapshot::newest(es, k, ts) is Some,
    ensures
        key::bytes_le(low, k),
{
    snapshot::lemma_newest_member(es, k, ts);
    let e = snapshot::newest(es, k, ts)->0;
    let i = choose|i: int| 0 <= i < es.len() && es[i] == e;
    assert(key::bytes_le(low, es[i].key.key));
}

proof fn lemma_user_view(s: Stream, end: Bound, read_ts: u64, prev: Seq<u8>)
    requires
        key::sorted(s.entries),
        s.fault is None,
        key::none_before(s.entries, prev),
    ensures
        user_view(s, end, read_ts, prev).fault is None,
        key::sorted(user_view(s, end, read_ts, prev).entries),
        shows(user_view(s, end, read_ts, prev).entries, s.entries, end, read_ts, prev),
    decreases s.entries.len(),
{
    let es = s.entries;
    let v = user_view(s, end, read_ts, prev).entries;
    if es.len() == 0 {
        assert(shows(v, es, end, read_ts, prev));
    } else {
        let e = es[0];
        let rest = Stream { entries: es.skip(1), fault: s.fault };
        key::lemma_rest_sorted(es);
        assert(es.drop_first() =~= rest.entries);
        assert forall|i: int| 0 <= i < rest.entries.len() implies key::bytes_le(
            prev,
            (#[trigger] rest.entries[i]).key.key,
        ) by {
            assert(rest.entries[i] == es[i + 1]);
        }
        if e.key.ts > read_ts {
            lemma_user_view(rest, end, read_ts, prev);
            assert(shows(v, es, end, read_ts, prev));
        } else if !end.admits(e.key.key) {
            assert forall|x: Entry| !(#[trigger] v.contains(x)) && !(x.key.key != prev
                && end.admits(x.key.key) && snapshot::visible(es, x.key.key, read_ts) == Some(
                x.value,
            )) by {
                if end.admits(x.key.key) && snapshot::visible(es, x.key.key, read_ts) is Some {
                    assert(x.key.key != e.key.key);
                    lemma_visible_occurs(rest.entries, x.key.key, read_ts, e.key.key);
                    lemma_admits_before(end, e.key.key, x.key.key);
                }
            }
            assert(shows(v, es, end, read_ts, prev));
        } else if e.key.key == prev {
            lemma_user_view(rest, end, read_ts, prev);
            assert(shows(v, es, end, read_ts, prev));
        } else {
            lemma_user_view(rest, end, read_ts, e.key.key);
            let w = user_view(rest, end, read_ts, e.key.key).entries;
            assert(key::bytes_lt(prev, e.key.key)) by {
                assert(key::bytes_le(prev, es[0].key.key));
            }
            // A key that `prev` hides does not occur behind the first entry.
            assert forall|x: Entry| #[trigger] w.contains(x) implies key::bytes_lt(
                e.key.key,
                x.key.key,
            ) && x.key.key != prev by {
                lemma_visible_occurs(rest.entries, x.key.key, read_ts, e.key.key);
                if x.key.key == prev {
                    key::lemma_bytes_lt_asymmetric(prev, e.key.key);
                }
            }
            if e.value.len() == 0 {
                assert(v == w);
                assert forall|x: Entry| #[trigger] v.contains(x) <==> (x.key.ts == TS_DEFAULT
                    && x.key.key != prev && end.admits(x.key.key) && snapshot::visible(
                    es,
                    x.key.key,
                    read_ts,
                ) == Some(x.value)) by {
                    assert(w.contains(x) ==> x.key.key != prev);
                }
            } else {
                let u = user_entry(e);
                assert(v == seq![u] + w);
                assert forall|x: Entry| #[trigger] v.contains(x) <==> (x.key.ts == TS_DEFAULT
                    && x.key.key != prev && end.admits(x.key.key) && snapshot::visible(
                    es,
                    x.key.key,
                    read_ts,
                ) == Some(x.value)) by {
                    lemma_contains_cons(u, w, x);
                    assert(w.contains(x) ==> x.key.key != prev);
                    if x.key.key == e.key.key && x.value == e.value && x.key.ts == TS_DEFAULT {
                        assert(x =~= u);
                    }
                }
                assert forall|i: int, j: int| 0 <= i < j < v.len() implies key::key_lt(
                    #[trigger] v[i].key,
                    #[trigger] v[j].key,
                ) by {
                    assert(v[j] == w[j - 1]);
                    assert(w.contains(w[j - 1]));
                    if i > 0 {
                        assert(v[i] == w[i - 1]);
                    }
                }
            }
            assert(shows(v, es, end, read_ts, prev));
        }
    }
}

proof fn lemma_contains_cons(u: Entry, w: Seq<Entry>, x: Entry)
    ensures
        (seq![u] + w).contains(x) <==> x == u || w.contains(x),
{
    let v = seq![u] + w;
    if v.contains(x) {
        let i = choose|i: int| 0 <= i < v.len() && v[i] == x;
        if i > 0 {
            assert(w[i - 1] == x);
        }
    }
    if x == u {
        assert(v[0] == x);
    }
    if w.contains(x) {
        let i = choose|i: int| 0 <= i < w.len() && w[i] == x;
        assert(v[i + 1] == x);
    }
}

/// A scan of sorted entries at time `read_ts` hands out, in key order, exactly the keys up to the
/// end of the range that have a value at that time, each with that value.
pub proof fn lemma_scan(s: Stream, end: Bound, read_ts: u64)
    requires
        key::sorted(s.entries),
        s.fault is None,
    ensures
        ({
            let v = user_view(s, end, read_ts, Seq::empty());
            &&& v.fault is None
            &&& key::sorted(v.entries)
            &&& forall|x: Entry| #[trigger]
                v.entries.contains(x) <==> {
                    &&& x.key.ts == TS_DEFAULT
                    &&& x.key.key.len() > 0
                    &&& end.admits(x.key.key)
                    &&& snapshot::visible(s.entries, x.key.key, read_ts) == Some(x.value)
                }
        }),
{
    assert forall|i: int| 0 <= i < s.entries.len() implies key::bytes_le(
        Seq::empty(),
        (#[trigger] s.entries[i]).key.key,
    ) by {
        assert(s.entries[i].key.key.len() == 0 ==> s.entries[i].key.key =~= Seq::empty());
    }
    lemma_user_view(s, end, read_ts, Seq::empty());
    assert forall|k: Seq<u8>| k != Seq::<u8>::empty() <==> #[trigger] k.len() > 0 by {
        assert(k.len() == 0 ==> k =~= Seq::empty());
    }
}

/// What a bound lets through: as an upper bound the keys before it, as a lower bound those behind it,
/// and the key of the bound itself exactly if it is included.
pub proof fn lemma_bounds(b: Bound, k: Seq<u8>)
    ensures
        match b {
            Bound::Included(x) => {
                &&& b.admits(k) <==> !key::bytes_lt(x@, k)
                &&& b.allows(k) <==> !key::bytes_lt(k, x@)
                &&& b.admits(x@)
                &&& b.allows(x@)
            },
            Bound::Excluded(x) => {
                &&& b.admits(k) <==> key::bytes_lt(k, x@)
                &&& b.allows(k) <==> key::bytes_lt(x@, k)
                &&& !b.admits(x@)
                &&& !b.allows(x@)
            },
            Bound::Unbounded => b.admits(k) && b.allows(k),
        },
{
    match b {
        Bound::Included(x) => {
            key::lemma_bytes_lt_total(k, x@);
            key::lemma_bytes_lt_irreflexive(k);
            if key::bytes_lt(k, x@) {
                key::lemma_bytes_lt_asymmetric(k, x@);
            }
            if key::bytes_lt(x@, k) {
                key::lemma_bytes_lt_asymmetric(x@, k);
            }
        },
        Bound::Excluded(x) => {
            key::lemma_bytes_lt_irreflexive(x@);
        },
        Bound::Unbounded => {},
    }
}

/// Exactly which entries a scan shows: a key that is not empty and not behind the end, with the value
/// of its newest version up to the time that is read, unless that version is the mark of a deletion.
pub proof fn lemma_scan_exactly(s: Stream, end: Bound, read_ts: u64, x: Entry)
    requires
        key::sorted(s.entries),
        s.fault is None,
    ensures
        user_view(s, end, read_ts, Seq::empty()).entries.contains(x) <==> {
            &&& x.key.ts == 0
            &&& x.key.key.len() > 0
            &&& x.value.len() > 0
            &&& match end {
                Bound::Included(b) => !key::bytes_lt(b@, x.key.key),
                Bound::Excluded(b) => key::bytes_lt(x.key.key, b@),
                Bound::Unbounded => true,
            }
            &&& exists|i: int|
                0 <= i < s.entries.len() && (#[trigger] s.entries[i]).key.key == x.key.key
                    && s.entries[i].key.ts <= read_ts && s.entries[i].value == x.value && forall|
                    j: int,
                |
                    0 <= j < s.entries.len() && (#[trigger] s.entries[j]).key.key == x.key.key
                        && s.entries[j].key.ts <= read_ts ==> s.entries[j].key.ts
                        <= s.entries[i].key.ts
        },
{
    lemma_scan(s, end, read_ts);
    lemma_bounds(end, x.key.key);
    snapshot::lemma_visible_exactly(s.entries, x.key.key, read_ts, x.value);
}

/// An error behind the entries changes nothing of what is shown before it. It is met where no version
/// of the time that is read lies behind the end; otherwise the scan has ended before.
pub proof fn lemma_scan_fault(s: Stream, end: Bound, read_ts: u64, prev: Seq<u8>)
    ensures
        user_view(s, end, read_ts, prev).entries == user_view(
            Stream { entries: s.entries, fault: None },
            end,
            read_ts,
            prev,
        ).entries,
        user_view(s, end, read_ts, prev).fault == if exists|i: int|
            0 <= i < s.entries.len() && (#[trigger] s.entries[i]).key.ts <= read_ts && !end.admits(
                s.entries[i].key.key,
            ) {
            None
        } else {
            s.fault
        },
    decreases s.entries.len(),
{
    if s.entries.len() > 0 {
        let e = s.entries[0];
        let rest = Stream { entries: s.entries.skip(1), fault: s.fault };
        lemma_scan_fault(rest, end, read_ts, prev);
        lemma_scan_fault(rest, end, read_ts, e.key.key);
        let here = exists|i: int|
            0 <= i < s.entries.len() && (#[trigger] s.entries[i]).key.ts <= read_ts && !end.admits(
                s.entries[i].key.key,
            );
        let there = exists|i: int|
            0 <= i < rest.entries.len() && (#[trigger] rest.entries[i]).key.ts <= read_ts
                && !end.admits(rest.entries[i].key.key);
        if there {
            let i = choose|i: int|
                0 <= i < rest.entries.len() && (#[trigger] rest.entries[i]).key.ts <= read_ts
                    && !end.admits(rest.entries[i].key.key);
            assert(s.entries[i + 1] == rest.entries[i]);
        }
        if here {
            let i = choose|i: int|
                0 <= i < s.entries.len() && (#[trigger] s.entries[i]).key.ts <= read_ts
                    && !end.admits(s.entries[i].key.key);
            if i > 0 {
                assert(rest.entries[i - 1] == s.entries[i]);
            }
        }
    }
}

/// The search for the next entry to show moves past entries only, and as far as the first one that is
/// shown or that lies behind the end. Where it finds one to show, that is what the scan shows next.
pub proof fn lemma_search(s: Stream, end: Bound, read_ts: u64, prev: Seq<u8>)
    ensures
        ({
            let f = search(s, end, read_ts, prev);
            let v = user_view(s, end, read_ts, prev);
            &&& f.moves <= s.entries.len()
            &&& f.stream.entries == s.entries.skip(f.moves as int)
            &&& f.stream.entries.len() > 0 ==> {
                let e = f.stream.entries[0];
                &&& e.key.ts <= read_ts
                &&& end.admits(e.key.key) ==> e.value.len() > 0 && v.entries.len() > 0
                    && v.entries[0].key.key == e.key.key && v.entries[0].value == e.value
                &&& !end.admits(e.key.key) ==> v.entries.len() == 0
            }
            &&& f.stream.entries.len() == 0 ==> v.entries.len() == 0
        }),
    decreases s.entries.len(),
{
    if s.entries.len() > 0 {
        let e = s.entries[0];
        if e.key.ts <= read_ts && (!end.admits(e.key.key) || e.key.key != prev && e.value.len()
            > 0) {
            assert(s.entries.skip(0) =~= s.entries);
        } else {
            let hidden = if e.key.ts <= read_ts {
                e.key.key
            } else {
                prev
            };
            lemma_search(s.rest(), end, read_ts, hidden);
            let f = search(s.rest(), end, read_ts, hidden);
            assert(s.rest().entries =~= s.entries.skip(1));
            assert(s.entries.skip(1).skip(f.moves as int) =~= s.entries.skip(f.moves as int + 1));
            lemma_scan_fault(s.rest(), end, read_ts, hidden);
            lemma_scan_fault(
                Stream { entries: s.entries.skip(1), fault: s.fault },
                end,
                read_ts,
                hidden,
            );
        }
    } else {
        assert(s.entries.skip(0) =~= s.entries);
    }
}

} // verus!
