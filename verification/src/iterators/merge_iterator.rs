//! Merging iterators of one kind.

use vstd::prelude::*;

use super::{StorageIterator, Stream};
use crate::block;
use crate::error::StorageError;
use crate::key;
use crate::key::{Entry, Key, KeySlice, KeyVec};

verus! {

/// The position of the stream whose first key is the smallest, the first of them on a tie, and -1
/// where no stream has an entry.
pub open spec fn lead(ss: Seq<Stream>) -> int
    decreases ss.len(),
{
    if ss.len() == 0 {
        -1
    } else {
        let l = lead(ss.drop_last());
        if ss.last().entries.len() == 0 {
            l
        } else if l < 0 || key::key_lt(ss.last().entries[0].key, ss[l].entries[0].key) {
            ss.len() - 1
        } else {
            l
        }
    }
}

/// The stream begins with `key`.
pub open spec fn begins_with(s: Stream, key: Key) -> bool {
    s.entries.len() > 0 && s.entries[0].key == key
}

/// The stream without its first entry where that has the key.
pub open spec fn moved_past(s: Stream, key: Key) -> Stream {
    if begins_with(s, key) {
        s.rest()
    } else {
        s
    }
}

/// The streams without the first entries that have the key.
pub open spec fn all_moved_past(ss: Seq<Stream>, key: Key) -> Seq<Stream> {
    Seq::new(ss.len(), |i: int| moved_past(ss[i], key))
}

/// The first error that moving the streams past the key reports.
pub open spec fn move_fault(ss: Seq<Stream>, key: Key) -> Option<StorageError>
    decreases ss.len(),
{
    if ss.len() == 0 {
        None
    } else if move_fault(ss.drop_last(), key) is Some {
        move_fault(ss.drop_last(), key)
    } else if begins_with(ss.last(), key) && ss.last().at_fault() {
        ss.last().fault
    } else {
        None
    }
}

/// The number of entries of streams.
pub open spec fn total(ss: Seq<Stream>) -> nat
    decreases ss.len(),
{
    if ss.len() == 0 {
        0
    } else {
        total(ss.drop_last()) + ss.last().entries.len()
    }
}

/// The merged stream: entries in key order, of those with one key the one from the first stream
/// that has it, up to the first error.
pub open spec fn merged(ss: Seq<Stream>) -> Stream
    decreases total(ss),
{
    let l = lead(ss);
    if l < 0 {
        Stream::ended()
    } else {
        let e = ss[l].entries[0];
        if move_fault(ss, e.key) is Some {
            Stream { entries: seq![e], fault: move_fault(ss, e.key) }
        } else {
            proof {
                lemma_lead(ss);
                lemma_total_moved(ss, e.key, l);
            }
            merged(all_moved_past(ss, e.key)).after(seq![e])
        }
    }
}

/// The leading stream has the smallest first key, and a smaller one than the streams before it.
pub proof fn lemma_lead(ss: Seq<Stream>)
    ensures
        -1 <= lead(ss) < ss.len(),
        lead(ss) < 0 ==> forall|i: int| 0 <= i < ss.len() ==> (#[trigger] ss[i]).entries.len() == 0,
        lead(ss) >= 0 ==> {
            &&& ss[lead(ss)].entries.len() > 0
            &&& forall|i: int|
                0 <= i < ss.len() && (#[trigger] ss[i]).entries.len() > 0 ==> key::key_le(
                    ss[lead(ss)].entries[0].key,
                    ss[i].entries[0].key,
                )
            &&& forall|i: int|
                0 <= i < lead(ss) && (#[trigger] ss[i]).entries.len() > 0 ==> key::key_lt(
                    ss[lead(ss)].entries[0].key,
                    ss[i].entries[0].key,
                )
        },
    decreases ss.len(),
{
    if ss.len() > 0 {
        let init = ss.drop_last();
        lemma_lead(init);
        let l = lead(init);
        assert forall|i: int| 0 <= i < init.len() implies ss[i] == #[trigger] init[i] by {}
        if ss.last().entries.len() > 0 && l >= 0 {
            let a = ss.last().entries[0].key;
            let b = ss[l].entries[0].key;
            key::lemma_key_lt_total(a, b);
            if key::key_lt(a, b) {
                assert forall|i: int|
                    0 <= i < init.len() && (#[trigger] ss[i]).entries.len()
                        > 0 implies key::key_lt(a, ss[i].entries[0].key) by {
                    assert(init[i] == ss[i]);
                    if ss[i].entries[0].key != b {
                        key::lemma_key_lt_transitive(a, b, ss[i].entries[0].key);
                    }
                }
            }
        }
        assert forall|i: int| 0 <= i < init.len() implies (#[trigger] ss[i]) == init[i] by {}
    }
}

/// Moving past a key leaves no more entries, and fewer where a stream begins with it.
pub proof fn lemma_total_moved(ss: Seq<Stream>, key: Key, l: int)
    ensures
        total(all_moved_past(ss, key)) <= total(ss),
        0 <= l < ss.len() && begins_with(ss[l], key) ==> total(all_moved_past(ss, key)) < total(ss),
    decreases ss.len(),
{
    if ss.len() > 0 {
        let init = ss.drop_last();
        lemma_total_moved(init, key, l);
        assert(all_moved_past(ss, key).drop_last() =~= all_moved_past(init, key));
    }
}

/// What iterators have left.
pub open spec fn streams<I: StorageIterator>(iters: Seq<I>) -> Seq<Stream> {
    Seq::new(iters.len(), |i: int| iters[i].stream())
}

/// How often stream `i` moves in the next `n` moves of the merged stream. The streams that begin
/// with its key move one after the other, up to the first one that fails.
pub open spec fn moves_of(ss: Seq<Stream>, i: int, n: nat) -> nat
    decreases n,
{
    let l = lead(ss);
    if n == 0 || l < 0 {
        0
    } else {
        let key = ss[l].entries[0].key;
        let here: nat = if begins_with(ss[i], key) && move_fault(ss.take(i), key) is None {
            1
        } else {
            0
        };
        if move_fault(ss, key) is Some {
            here
        } else {
            here + moves_of(all_moved_past(ss, key), i, (n - 1) as nat)
        }
    }
}

/// One of the next `n` moves of the merged stream fails.
pub open spec fn fails_within(ss: Seq<Stream>, n: nat) -> bool
    decreases n,
{
    let l = lead(ss);
    n > 0 && l >= 0 && {
        let key = ss[l].entries[0].key;
        move_fault(ss, key) is Some || fails_within(all_moved_past(ss, key), (n - 1) as nat)
    }
}

/// The number of iterators under the first `j` iterators after `n` moves of the merged stream. Those
/// that have nothing left do not count.
pub open spec fn active_upto<I: StorageIterator>(iters: Seq<I>, n: nat, j: int) -> nat
    decreases j,
{
    if j <= 0 {
        0
    } else {
        let m = moves_of(streams(iters), j - 1, n);
        active_upto(iters, n, j - 1) + if iters[j - 1].stream().entries.len() > m {
            iters[j - 1].active_after(m)
        } else {
            0
        }
    }
}

/// The number of iterators under iterators after `n` moves of the merged stream. None is left once a
/// move has failed.
pub open spec fn active_sum<I: StorageIterator>(iters: Seq<I>, n: nat) -> nat {
    if fails_within(streams(iters), n) {
        0
    } else {
        active_upto(iters, n, iters.len() as int)
    }
}

pub open spec fn all_wf<I: StorageIterator>(iters: Seq<I>) -> bool {
    forall|i: int| 0 <= i < iters.len() ==> (#[trigger] iters[i]).wf()
}

/// Merges iterators of one kind. Of entries with one key it hands out the one from the first
/// iterator that has it.
pub struct MergeIterator<I: StorageIterator> {
    iters: Vec<I>,
    current: Option<usize>,
}

fn find_lead<I: StorageIterator>(iters: &Vec<I>) -> (r: Option<usize>)
    requires
        all_wf(iters@),
    ensures
        match r {
            Some(l) => l == lead(streams(iters@)),
            None => lead(streams(iters@)) < 0,
        },
{
    let ghost ss = streams(iters@);
    let mut best: Option<usize> = None;
    let mut i: usize = 0;
    while i < iters.len()
        invariant
            i <= iters.len(),
            all_wf(iters@),
            ss == streams(iters@),
            match best {
                Some(l) => l < i && l == lead(ss.take(i as int)) && ss[l as int].entries.len() > 0,
                None => lead(ss.take(i as int)) < 0,
            },
        decreases iters.len() - i,
    {
        assert(ss.take(i + 1).drop_last() =~= ss.take(i as int));
        if iters[i].is_valid() {
            match best {
                None => {
                    best = Some(i);
                },
                Some(l) => {
                    if iters[i].key().precedes(iters[l].key()) {
                        best = Some(i);
                    }
                },
            }
        }
        i += 1;
    }
    assert(ss.take(i as int) =~= ss);
    best
}

impl<I: StorageIterator> MergeIterator<I> {
    /// Merges the given iterators, the newest first.
    pub fn create(iters: Vec<I>) -> (r: Self)
        requires
            all_wf(iters@),
        ensures
            r.wf(),
            r.stream() == merged(streams(iters@)),
            forall|n: nat| #[trigger] r.active_after(n) == active_sum(iters@, n),
    {
        let current = find_lead(&iters);
        proof {
            lemma_lead(streams(iters@));
        }
        MergeIterator { iters, current }
    }
}

impl<I: StorageIterator> StorageIterator for MergeIterator<I> {
    closed spec fn wf(&self) -> bool {
        &&& all_wf(self.iters@)
        &&& match self.current {
            Some(l) => l == lead(streams(self.iters@)),
            None => lead(streams(self.iters@)) < 0,
        }
    }

    closed spec fn stream(&self) -> Stream {
        merged(streams(self.iters@))
    }

    open spec fn tolerant(&self) -> bool {
        false
    }

    closed spec fn active_after(&self, n: nat) -> nat {
        active_sum(self.iters@, n)
    }

    proof fn lemma_stream_wf(&self) {
        lemma_merged_wf(streams(self.iters@));
    }

    fn is_valid(&self) -> (r: bool) {
        self.current.is_some()
    }

    fn key(&self) -> (r: KeySlice<'_>) {
        proof {
            lemma_lead(streams(self.iters@));
        }
        match self.current {
            Some(l) => self.iters[l].key(),
            None => KeySlice::from_slice(&[], 0),
        }
    }

    fn value(&self) -> (r: &[u8]) {
        proof {
            lemma_lead(streams(self.iters@));
        }
        match self.current {
            Some(l) => self.iters[l].value(),
            None => &[],
        }
    }

    fn next(&mut self) -> (r: Result<(), StorageError>) {
        let ghost ss = streams(self.iters@);
        proof {
            lemma_lead(ss);
        }
        let key: KeyVec = match self.current {
            Some(l) => self.iters[l].key().to_key_vec(),
            None => {
                return Ok(());
            },
        };
        let mut i: usize = 0;
        let n: usize = self.iters.len();
        while i < n
            invariant
                i <= n,
                n == self.iters@.len(),
                n == ss.len(),
                ss == streams(old(self).iters@),
                lead(ss) >= 0,
                ss[lead(ss)].entries[0].key == key@,
                all_wf(self.iters@),
                forall|j: int|
                    0 <= j < i ==> (#[trigger] self.iters@[j]).stream() == moved_past(ss[j], key@),
                forall|j: int| i <= j < n ==> (#[trigger] self.iters@[j]).stream() == ss[j],
                move_fault(ss.take(i as int), key@) is None,
                forall|j: int, m: nat|
                    0 <= j < i ==> #[trigger] self.iters@[j].active_after(m) == old(
                        self,
                    ).iters@[j].active_after(m + own_moves(ss[j], key@)),
                forall|j: int| i <= j < n ==> self.iters@[j] == old(self).iters@[j],
            decreases n - i,
        {
            proof {
                assert(ss.take(i + 1).drop_last() =~= ss.take(i as int));
                assert(self.iters@[i as int].stream() == ss[i as int]);
            }
            if self.iters[i].is_valid() && self.iters[i].key().same_as(key.as_key_slice()) {
                let moved = self.iters[i].next();
                match moved {
                    Ok(()) => {},
                    Err(e) => {
                        proof {
                            lemma_move_fault_take(ss, key@, i + 1);
                        }
                        self.iters = Vec::new();
                        self.current = None;
                        assert(streams(self.iters@).len() == 0);
                        assert forall|m: nat| #[trigger] self.active_after(m) == old(
                            self,
                        ).active_after(m + 1) by {}
                        return Err(e);
                    },
                }
            }
            i += 1;
        }
        assert(ss.take(i as int) =~= ss);
        assert(streams(self.iters@) =~= all_moved_past(ss, key@));
        self.current = find_lead(&self.iters);
        proof {
            lemma_lead(streams(self.iters@));
            assert(old(self).stream().entries.skip(1) =~= self.stream().entries);
            lemma_merged_wf(streams(self.iters@));
            assert forall|m: nat| #[trigger] self.active_after(m) == old(self).active_after(
                m + 1,
            ) by {
                lemma_active_moved(old(self).iters@, self.iters@, m, n as int);
            }
        }
        Ok(())
    }

    fn num_active_iterators(&self) -> (r: usize) {
        let mut sum: usize = 0;
        let mut i: usize = 0;
        while i < self.iters.len()
            invariant
                i <= self.iters.len(),
                all_wf(self.iters@),
                active_sum(self.iters@, 0) <= usize::MAX,
                sum == active_upto(self.iters@, 0, i as int),
            decreases self.iters.len() - i,
        {
            proof {
                lemma_active_upto(self.iters@, 0, i + 1);
            }
            if self.iters[i].is_valid() {
                sum += self.iters[i].num_active_iterators();
            }
            i += 1;
        }
        sum
    }
}

/// How often a stream moves when the merged stream moves past a key.
spec fn own_moves(s: Stream, key: Key) -> nat {
    if begins_with(s, key) {
        1
    } else {
        0
    }
}

proof fn lemma_active_upto<I: StorageIterator>(iters: Seq<I>, n: nat, i: int)
    requires
        0 <= i <= iters.len(),
    ensures
        active_upto(iters, n, i) <= active_upto(iters, n, iters.len() as int),
    decreases iters.len() - i,
{
    if i < iters.len() {
        lemma_active_upto(iters, n, i + 1);
    }
}

/// The iterators after a move count as those before it did one move later.
proof fn lemma_active_moved<I: StorageIterator>(before: Seq<I>, after: Seq<I>, n: nat, j: int)
    requires
        ({
            let ss = streams(before);
            let key = ss[lead(ss)].entries[0].key;
            &&& lead(ss) >= 0
            &&& move_fault(ss, key) is None
            &&& streams(after) == all_moved_past(ss, key)
            &&& forall|i: int, m: nat|
                0 <= i < before.len() ==> #[trigger] after[i].active_after(m)
                    == before[i].active_after(m + own_moves(ss[i], key))
        }),
        before.len() == after.len(),
        0 <= j <= before.len(),
    ensures
        active_upto(after, n, j) == active_upto(before, n + 1, j),
        fails_within(streams(after), n) == fails_within(streams(before), n + 1),
    decreases j,
{
    let ss = streams(before);
    let key = ss[lead(ss)].entries[0].key;
    let ms = all_moved_past(ss, key);
    if j > 0 {
        let i = j - 1;
        lemma_active_moved(before, after, n, i);
        if move_fault(ss.take(i), key) is Some {
            lemma_move_fault_take(ss, key, i);
        }
        if move_fault(ss.take(j), key) is Some {
            lemma_move_fault_take(ss, key, j);
        }
        assert(ss.take(j).drop_last() =~= ss.take(i));
        assert(!(begins_with(ss[i], key) && ss[i].at_fault()) || ss[i].fault is None);
        assert(moves_of(ss, i, n + 1) == own_moves(ss[i], key) + moves_of(ms, i, n));
        assert(after[i].stream() == streams(after)[i]);
        assert(before[i].stream() == ss[i]);
        assert(after[i].active_after(moves_of(ms, i, n)) == before[i].active_after(
            moves_of(ss, i, n + 1),
        ));
    }
}

/// Once one of the first streams fails, that error is the first one.
pub proof fn lemma_move_fault_take(ss: Seq<Stream>, key: Key, i: int)
    requires
        0 <= i <= ss.len(),
        move_fault(ss.take(i), key) is Some,
    ensures
        move_fault(ss, key) == move_fault(ss.take(i), key),
    decreases ss.len(),
{
    if i < ss.len() {
        assert(ss.drop_last().take(i) =~= ss.take(i));
        lemma_move_fault_take(ss.drop_last(), key, i);
    } else {
        assert(ss.take(i) =~= ss);
    }
}

/// An error of a merged stream stands behind an entry.
pub proof fn lemma_merged_wf(ss: Seq<Stream>)
    ensures
        merged(ss).wf(),
        (merged(ss).entries.len() > 0) == (lead(ss) >= 0),
        lead(ss) >= 0 ==> merged(ss).entries[0] == ss[lead(ss)].entries[0],
{
}

/// What is merged from entries with representable lengths has such lengths.
pub proof fn lemma_merged_valid(ss: Seq<Stream>)
    requires
        forall|i: int| 0 <= i < ss.len() ==> block::valid_entries((#[trigger] ss[i]).entries),
    ensures
        block::valid_entries(merged(ss).entries),
    decreases total(ss),
{
    let l = lead(ss);
    lemma_lead(ss);
    if l >= 0 {
        let e = ss[l].entries[0];
        assert(block::valid_entries(ss[l].entries));
        assert(block::valid_entry(ss[l].entries[0]));
        if move_fault(ss, e.key) is None {
            let ms = all_moved_past(ss, e.key);
            lemma_total_moved(ss, e.key, l);
            assert forall|i: int| 0 <= i < ms.len() implies block::valid_entries(
                (#[trigger] ms[i]).entries,
            ) by {
                assert(block::valid_entries(ss[i].entries));
                let off: int = if begins_with(ss[i], e.key) {
                    1
                } else {
                    0
                };
                assert forall|j: int| 0 <= j < ms[i].entries.len() implies #[trigger] block::valid_entry(
                    ms[i].entries[j],
                ) by {
                    assert(block::valid_entry(ss[i].entries[j + off]));
                }
            }
            lemma_merged_valid(ms);
            block::lemma_valid_concat(seq![e], merged(ms).entries);
        }
    }
}

/// The streams are sorted and none of them fails.
pub open spec fn sound(ss: Seq<Stream>) -> bool {
    forall|i: int| 0 <= i < ss.len() ==> #[trigger] sound_stream(ss[i])
}

pub open spec fn sound_stream(s: Stream) -> bool {
    key::sorted(s.entries) && s.fault is None
}

/// Some entry of the stream has the key.
pub open spec fn has_key(s: Stream, key: Key) -> bool {
    exists|j: int| 0 <= j < s.entries.len() && #[trigger] s.entries[j].key == key
}

/// Stream `i` is the first one with the key of `e`, and `e` is its entry.
pub open spec fn first_with(ss: Seq<Stream>, e: Entry, i: int) -> bool {
    &&& 0 <= i < ss.len()
    &&& ss[i].entries.contains(e)
    &&& forall|j: int| 0 <= j < i ==> !has_key(#[trigger] ss[j], e.key)
}

proof fn lemma_no_move_fault(ss: Seq<Stream>, key: Key)
    requires
        sound(ss),
    ensures
        move_fault(ss, key) is None,
    decreases ss.len(),
{
    if ss.len() > 0 {
        assert(sound_stream(ss[ss.len() - 1]));
        assert forall|i: int| 0 <= i < ss.drop_last().len() implies #[trigger] sound_stream(
            ss.drop_last()[i],
        ) by {
            assert(sound_stream(ss[i]));
        }
        lemma_no_move_fault(ss.drop_last(), key);
    }
}

/// Moving a sound stream past a key that is not behind its first leaves the entries behind it.
proof fn lemma_moved_stream(s: Stream, key: Key)
    requires
        sound_stream(s),
        s.entries.len() > 0 ==> key::key_le(key, s.entries[0].key),
    ensures
        sound_stream(moved_past(s, key)),
        forall|j: int|
            0 <= j < moved_past(s, key).entries.len() ==> key::key_lt(
                key,
                #[trigger] moved_past(s, key).entries[j].key,
            ),
        forall|e: Entry|
            e.key != key ==> (#[trigger] s.entries.contains(e) <==> moved_past(s, key).entries.contains(
                e,
            )),
        forall|k: Key| k != key ==> (#[trigger] has_key(s, k) <==> has_key(moved_past(s, key), k)),
        forall|e: Entry|
            #[trigger] s.entries.contains(e) && e.key == key ==> begins_with(s, key)
                && e == s.entries[0],
        has_key(s, key) ==> begins_with(s, key),
{
    let m = moved_past(s, key);
    let off: int = if begins_with(s, key) {
        1
    } else {
        0
    };
    assert forall|j: int| 0 <= j < m.entries.len() implies #[trigger] m.entries[j] == s.entries[j
        + off] by {}
    assert forall|j: int| 0 <= j < m.entries.len() implies key::key_lt(
        key,
        #[trigger] m.entries[j].key,
    ) by {
        assert(m.entries[j] == s.entries[j + off]);
        if j + off > 0 {
            let a = s.entries[0].key;
            assert(key::key_lt(a, s.entries[j + off].key));
            if a != key {
                key::lemma_key_lt_transitive(key, a, s.entries[j + off].key);
            }
        }
    }
    assert forall|j: int| 0 < j < s.entries.len() implies #[trigger] s.entries[j].key != key by {
        let a = s.entries[0].key;
        assert(key::key_lt(a, s.entries[j].key));
        if a != key {
            key::lemma_key_lt_transitive(key, a, s.entries[j].key);
        }
        key::lemma_bytes_lt_irreflexive(key.key);
    }
    assert forall|e: Entry| e.key != key implies (#[trigger] s.entries.contains(e)
        <==> m.entries.contains(e)) by {
        if s.entries.contains(e) {
            let j = choose|j: int| 0 <= j < s.entries.len() && s.entries[j] == e;
            assert(m.entries[j - off] == e);
        }
        if m.entries.contains(e) {
            let j = choose|j: int| 0 <= j < m.entries.len() && m.entries[j] == e;
            assert(s.entries[j + off] == e);
        }
    }
    assert forall|k: Key| k != key implies (#[trigger] has_key(s, k) <==> has_key(m, k)) by {
        if has_key(s, k) {
            let j = choose|j: int| 0 <= j < s.entries.len() && #[trigger] s.entries[j].key == k;
            assert(m.entries[j - off].key == k);
        }
        if has_key(m, k) {
            let j = choose|j: int| 0 <= j < m.entries.len() && #[trigger] m.entries[j].key == k;
            assert(s.entries[j + off].key == k);
        }
    }
}

proof fn lemma_moved_streams(ss: Seq<Stream>)
    requires
        sound(ss),
        lead(ss) >= 0,
    ensures
        ({
            let e = ss[lead(ss)].entries[0];
            let ms = all_moved_past(ss, e.key);
            &&& sound(ms)
            &&& forall|x: Entry, i: int| #[trigger]
                first_with(ms, x, i) ==> key::key_lt(e.key, x.key) && first_with(ss, x, i)
            &&& forall|x: Entry, i: int| #[trigger]
                first_with(ss, x, i) && x != e ==> first_with(ms, x, i)
            &&& first_with(ss, e, lead(ss))
        }),
{
    lemma_lead(ss);
    let l = lead(ss);
    let e = ss[l].entries[0];
    let ms = all_moved_past(ss, e.key);
    assert forall|i: int| 0 <= i < ms.len() implies #[trigger] sound_stream(ms[i]) by {
        assert(sound_stream(ss[i]));
        lemma_moved_stream(ss[i], e.key);
    }
    assert forall|x: Entry, i: int| #[trigger] first_with(ms, x, i) implies key::key_lt(
        e.key,
        x.key,
    ) && first_with(ss, x, i) by {
        assert(sound_stream(ss[i]));
        lemma_moved_stream(ss[i], e.key);
        let j = choose|j: int| 0 <= j < ms[i].entries.len() && ms[i].entries[j] == x;
        assert(key::key_lt(e.key, ms[i].entries[j].key));
        key::lemma_bytes_lt_irreflexive(e.key.key);
        assert forall|h: int| 0 <= h < i implies !has_key(#[trigger] ss[h], x.key) by {
            assert(sound_stream(ss[h]));
            lemma_moved_stream(ss[h], e.key);
            assert(!has_key(ms[h], x.key));
        }
    }
    assert(first_with(ss, e, l)) by {
        assert forall|h: int| 0 <= h < l implies !has_key(#[trigger] ss[h], e.key) by {
            assert(sound_stream(ss[h]));
            lemma_moved_stream(ss[h], e.key);
            if begins_with(ss[h], e.key) {
                key::lemma_bytes_lt_irreflexive(e.key.key);
            }
        }
        assert(ss[l].entries[0] == e);
    }
    assert forall|x: Entry, i: int| #[trigger] first_with(ss, x, i) && x != e implies first_with(
        ms,
        x,
        i,
    ) by {
        assert(sound_stream(ss[i]));
        lemma_moved_stream(ss[i], e.key);
        if x.key == e.key {
            assert(ss[i].entries[0] == x);
            assert(begins_with(ss[i], e.key));
            assert(has_key(ss[i], e.key)) by {
                assert(ss[i].entries[0].key == e.key);
            }
            assert(has_key(ss[l], e.key)) by {
                assert(ss[l].entries[0].key == e.key);
            }
            if l < i {
                assert(!has_key(ss[l], x.key));
            }
            if i < l {
                assert(!has_key(ss[i], e.key));
            }
            assert(i == l);
        }
        assert forall|h: int| 0 <= h < i implies !has_key(#[trigger] ms[h], x.key) by {
            assert(sound_stream(ss[h]));
            lemma_moved_stream(ss[h], e.key);
            assert(!has_key(ss[h], x.key));
        }
    }
}

/// Merging sorted streams gives a sorted stream that holds, for every key that occurs, the entry of
/// the first stream that has the key, and nothing else.
pub proof fn lemma_merged_sound(ss: Seq<Stream>)
    requires
        sound(ss),
    ensures
        sound_stream(merged(ss)),
        forall|x: Entry|
            #[trigger] merged(ss).entries.contains(x) <==> exists|i: int| first_with(ss, x, i),
    decreases total(ss),
{
    lemma_lead(ss);
    let l = lead(ss);
    if l < 0 {
        assert forall|x: Entry| !(#[trigger] merged(ss).entries.contains(x)) && !exists|i: int|
            first_with(ss, x, i) by {
            assert forall|i: int| !first_with(ss, x, i) by {
                if 0 <= i < ss.len() {
                    assert(ss[i].entries.len() == 0);
                }
            }
        }
    } else {
        let e = ss[l].entries[0];
        let ms = all_moved_past(ss, e.key);
        lemma_no_move_fault(ss, e.key);
        lemma_total_moved(ss, e.key, l);
        lemma_moved_streams(ss);
        lemma_merged_sound(ms);
        let rest = merged(ms).entries;
        let all = merged(ss).entries;
        assert(all == seq![e] + rest);
        assert forall|j: int| 0 <= j < rest.len() implies key::key_lt(
            e.key,
            #[trigger] rest[j].key,
        ) by {
            assert(rest.contains(rest[j]));
            let i = choose|i: int| first_with(ms, rest[j], i);
            assert(first_with(ms, rest[j], i));
        }
        assert forall|i: int, j: int| 0 <= i < j < all.len() implies key::key_lt(
            #[trigger] all[i].key,
            #[trigger] all[j].key,
        ) by {
            assert(all[j] == rest[j - 1]);
            if i > 0 {
                assert(all[i] == rest[i - 1]);
            }
        }
        assert forall|x: Entry|
            #[trigger] all.contains(x) <==> exists|i: int| first_with(ss, x, i) by {
            if all.contains(x) {
                let j = choose|j: int| 0 <= j < all.len() && all[j] == x;
                if j == 0 {
                    assert(first_with(ss, x, l));
                } else {
                    assert(rest[j - 1] == x);
                    assert(rest.contains(x));
                    let i = choose|i: int| first_with(ms, x, i);
                    assert(first_with(ss, x, i));
                }
            }
            if exists|i: int| first_with(ss, x, i) {
                let i = choose|i: int| first_with(ss, x, i);
                if x == e {
                    assert(all[0] == x);
                } else {
                    assert(first_with(ms, x, i));
                    assert(rest.contains(x));
                    let j = choose|j: int| 0 <= j < rest.len() && rest[j] == x;
                    assert(all[j + 1] == x);
                }
            }
        }
    }
}

/// The sources as they would be if none of them ended with an error.
spec fn faultless(ss: Seq<Stream>) -> Seq<Stream> {
    Seq::new(ss.len(), |i: int| Stream { entries: ss[i].entries, fault: None })
}

proof fn lemma_faultless_lead(ss: Seq<Stream>)
    ensures
        lead(faultless(ss)) == lead(ss),
    decreases ss.len(),
{
    if ss.len() > 0 {
        lemma_faultless_lead(ss.drop_last());
        assert(faultless(ss).drop_last() =~= faultless(ss.drop_last()));
        lemma_lead(ss.drop_last());
    }
}

proof fn lemma_faultless_moves(ss: Seq<Stream>, key: Key)
    ensures
        move_fault(faultless(ss), key) is None,
    decreases ss.len(),
{
    if ss.len() > 0 {
        lemma_faultless_moves(ss.drop_last(), key);
        assert(faultless(ss).drop_last() =~= faultless(ss.drop_last()));
    }
}

proof fn lemma_move_fault(ss: Seq<Stream>, key: Key)
    ensures
        move_fault(ss, key) is None <==> forall|i: int|
            0 <= i < ss.len() && begins_with(#[trigger] ss[i], key) ==> !ss[i].at_fault(),
        move_fault(ss, key) is Some ==> exists|i: int|
            0 <= i < ss.len() && (#[trigger] ss[i]).fault == move_fault(ss, key),
    decreases ss.len(),
{
    if ss.len() > 0 {
        let init = ss.drop_last();
        let n = ss.len() - 1;
        lemma_move_fault(init, key);
        assert(ss.last() == ss[n]);
        if move_fault(init, key) is Some {
            let i = choose|i: int|
                0 <= i < init.len() && (#[trigger] init[i]).fault == move_fault(init, key);
            assert(ss[i].fault == move_fault(ss, key));
            let j = choose|j: int|
                0 <= j < init.len() && begins_with(#[trigger] init[j], key) && init[j].at_fault();
            assert(begins_with(ss[j], key) && ss[j].at_fault());
        } else {
            assert forall|i: int|
                0 <= i < ss.len() && begins_with(#[trigger] ss[i], key) && move_fault(
                    ss,
                    key,
                ) is None implies !ss[i].at_fault() by {
                if i < n {
                    assert(init[i] == ss[i]);
                }
            }
        }
    }
}

/// How errors of the sources come through. The merged entries are those that there would be without
/// errors, up to where one of the sources fails when moving on. Where the merged source has no error,
/// no source has one, and nothing is missing.
pub proof fn lemma_merged_fault(ss: Seq<Stream>)
    requires
        forall|i: int| 0 <= i < ss.len() ==> (#[trigger] ss[i]).wf(),
    ensures
        ({
            let m = merged(ss);
            let whole = merged(
                Seq::new(ss.len(), |i: int| Stream { entries: ss[i].entries, fault: None }),
            );
            &&& m.entries.is_prefix_of(whole.entries)
            &&& m.fault is Some ==> exists|i: int|
                0 <= i < ss.len() && (#[trigger] ss[i]).fault == m.fault
            &&& m.fault is None ==> m.entries == whole.entries && forall|i: int|
                0 <= i < ss.len() ==> (#[trigger] ss[i]).fault is None
            &&& whole.fault is None
        }),
    decreases total(ss),
{
    let clean = faultless(ss);
    assert(clean =~= Seq::new(ss.len(), |i: int| Stream { entries: ss[i].entries, fault: None }));
    let l = lead(ss);
    lemma_faultless_lead(ss);
    lemma_lead(ss);
    if l < 0 {
        assert forall|i: int| 0 <= i < ss.len() implies (#[trigger] ss[i]).fault is None by {
            assert(ss[i].entries.len() == 0);
        }
    } else {
        let e = ss[l].entries[0];
        lemma_faultless_moves(ss, e.key);
        lemma_move_fault(ss, e.key);
        lemma_total_moved(ss, e.key, l);
        let next = all_moved_past(ss, e.key);
        let clean_next = all_moved_past(clean, e.key);
        assert(clean_next =~= faultless(next)) by {
            assert forall|i: int| 0 <= i < ss.len() implies #[trigger] clean_next[i]
                == faultless(next)[i] by {
                if begins_with(ss[i], e.key) {
                    assert(begins_with(clean[i], e.key));
                    assert(clean[i].rest().entries =~= ss[i].rest().entries);
                }
            }
        }
        if move_fault(ss, e.key) is Some {
            lemma_moved_clean(clean, e);
        } else {
            assert forall|i: int| 0 <= i < next.len() implies (#[trigger] next[i]).wf() by {
                assert(ss[i].wf());
                if begins_with(ss[i], e.key) {
                    assert(!ss[i].at_fault());
                }
            }
            lemma_merged_fault(next);
            let n = merged(next);
            let w = merged(clean_next);
            assert(faultless(next) =~= Seq::new(
                next.len(),
                |i: int| Stream { entries: next[i].entries, fault: None },
            ));
            assert(merged(ss).entries =~= seq![e] + n.entries);
            assert(merged(clean).entries =~= seq![e] + w.entries);
            assert((seq![e] + n.entries).is_prefix_of(seq![e] + w.entries));
            if n.fault is Some {
                let i = choose|i: int|
                    0 <= i < next.len() && (#[trigger] next[i]).fault == n.fault;
                assert(ss[i].fault == n.fault);
            } else {
                assert forall|i: int| 0 <= i < ss.len() implies (#[trigger] ss[i]).fault is None by {
                    assert(next[i].fault is None);
                    if begins_with(ss[i], e.key) {
                        assert(!ss[i].at_fault());
                    }
                }
            }
        }
    }
}

proof fn lemma_moved_clean(clean: Seq<Stream>, e: Entry)
    requires
        lead(clean) >= 0,
        clean[lead(clean)].entries[0] == e,
        move_fault(clean, e.key) is None,
        forall|i: int| 0 <= i < clean.len() ==> (#[trigger] clean[i]).fault is None,
    ensures
        seq![e].is_prefix_of(merged(clean).entries),
        merged(clean).fault is None,
    decreases total(clean),
{
    let next = all_moved_past(clean, e.key);
    lemma_lead(clean);
    lemma_total_moved(clean, e.key, lead(clean));
    assert(merged(clean).entries =~= seq![e] + merged(next).entries);
    assert(seq![e].is_prefix_of(seq![e] + merged(next).entries));
    assert forall|i: int| 0 <= i < next.len() implies (#[trigger] next[i]).fault is None by {
        assert(clean[i].fault is None);
    }
    lemma_lead(next);
    if lead(next) >= 0 {
        let f = next[lead(next)].entries[0];
        lemma_move_fault(next, f.key);
        lemma_moved_clean(next, f);
    }
}

/// How many iterators are active: those of every source that has entries left, counted together.
pub proof fn lemma_active_now<I: StorageIterator>(iters: Seq<I>)
    ensures
        active_sum(iters, 0) == iters.fold_left(
            0int,
            |sum: int, it: I|
                sum + if it.stream().entries.len() > 0 {
                    it.active_after(0)
                } else {
                    0
                },
        ),
{
    lemma_active_upto_now(iters, iters.len() as int);
    assert(iters.take(iters.len() as int) =~= iters);
}

proof fn lemma_active_upto_now<I: StorageIterator>(iters: Seq<I>, j: int)
    requires
        0 <= j <= iters.len(),
    ensures
        active_upto(iters, 0, j) == iters.take(j).fold_left(
            0int,
            |sum: int, it: I|
                sum + if it.stream().entries.len() > 0 {
                    it.active_after(0)
                } else {
                    0
                },
        ),
    decreases j,
{
    if j > 0 {
        lemma_active_upto_now(iters, j - 1);
        assert(iters.take(j).drop_last() =~= iters.take(j - 1));
    }
}

/// How often a source is moved while the merged source moves on `n` times: as often as it has entries
/// up to the last key that was passed, so that it stands on its first entry behind that key.
pub proof fn lemma_moves_of(ss: Seq<Stream>, i: int, n: nat)
    requires
        sound(ss),
        0 <= i < ss.len(),
        0 < n <= merged(ss).entries.len(),
    ensures
        ({
            let m = moves_of(ss, i, n);
            let passed = merged(ss).entries[n - 1].key;
            &&& m <= ss[i].entries.len()
            &&& forall|j: int|
                0 <= j < m ==> !key::key_lt(passed, (#[trigger] ss[i].entries[j]).key)
            &&& forall|j: int|
                m <= j < ss[i].entries.len() ==> key::key_lt(
                    passed,
                    (#[trigger] ss[i].entries[j]).key,
                )
        }),
    decreases n,
{
    lemma_merged_wf(ss);
    lemma_lead(ss);
    let l = lead(ss);
    let e = ss[l].entries[0];
    let es = ss[i].entries;
    let all = merged(ss).entries;
    let passed = all[n - 1].key;
    let next = all_moved_past(ss, e.key);
    lemma_no_move_fault(ss, e.key);
    lemma_no_move_fault(ss.take(i), e.key);
    lemma_total_moved(ss, e.key, l);
    lemma_moved_streams(ss);
    lemma_merged_sound(ss);
    assert(sound_stream(ss[i]));
    let rest = merged(next).entries;
    assert(all == seq![e] + rest);
    let here = begins_with(ss[i], e.key);
    assert(es.len() > 0 && !here ==> key::key_lt(e.key, es[0].key));
    if n == 1 {
        assert(moves_of(next, i, 0) == 0);
        key::lemma_bytes_lt_irreflexive(e.key.key);
        assert forall|j: int| (if here { 1int } else { 0int }) <= j < es.len() implies key::key_lt(
            e.key,
            (#[trigger] es[j]).key,
        ) by {
            if j > 0 {
                assert(key::key_lt(es[0].key, es[j].key));
                if !here {
                    key::lemma_key_lt_transitive(e.key, es[0].key, es[j].key);
                }
            }
        }
    } else {
        lemma_moves_of(next, i, (n - 1) as nat);
        assert(rest[n - 2] == all[n - 1]);
        let fs = next[i].entries;
        let m = moves_of(next, i, (n - 1) as nat);
        if here {
            assert(fs =~= es.skip(1));
            assert(key::key_lt(all[0].key, all[n - 1].key));
            key::lemma_key_lt_asymmetric(e.key, passed);
            assert forall|j: int| 0 <= j < m + 1 implies !key::key_lt(
                passed,
                (#[trigger] es[j]).key,
            ) by {
                if j > 0 {
                    assert(fs[j - 1] == es[j]);
                }
            }
            assert forall|j: int| m + 1 <= j < es.len() implies key::key_lt(
                passed,
                (#[trigger] es[j]).key,
            ) by {
                assert(fs[j - 1] == es[j]);
            }
        }
    }
}

/// Which source is read next: the one whose next key is the least, and of several with that key the
/// first. All of those are moved on, no other.
pub proof fn lemma_merged_next(ss: Seq<Stream>, i: int)
    requires
        0 <= i < ss.len(),
        merged(ss).entries.len() > 0,
    ensures
        ss[i].entries.len() > 0 ==> !key::key_lt(
            ss[i].entries[0].key,
            merged(ss).entries[0].key,
        ),
        ss[i].entries.len() > 0 && ss[i].entries[0].key == merged(ss).entries[0].key && (forall|
            j: int,
        |
            0 <= j < i && (#[trigger] ss[j]).entries.len() > 0 ==> ss[j].entries[0].key
                != ss[i].entries[0].key) ==> merged(ss).entries[0] == ss[i].entries[0],
{
    lemma_merged_wf(ss);
    lemma_lead(ss);
    let l = lead(ss);
    if ss[i].entries.len() > 0 {
        let a = ss[l].entries[0].key;
        let b = ss[i].entries[0].key;
        if a != b {
            key::lemma_key_lt_asymmetric(a, b);
        } else {
            key::lemma_bytes_lt_irreflexive(a.key);
        }
        if i < l {
            key::lemma_key_lt_asymmetric(a, b);
        }
    }
}

} // verus!
