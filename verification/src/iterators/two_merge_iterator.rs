//! Merging two iterators of different kinds.

use vstd::prelude::*;

use super::merge_iterator;
use super::{StorageIterator, Stream};
use crate::error::StorageError;
use crate::key;
use crate::key::{Key, KeySlice, KeyVec};

verus! {

/// Two streams that have nothing left.
pub open spec fn both_ended() -> Seq<Stream> {
    seq![Stream::ended(), Stream::ended()]
}

/// Two streams after the first entry that they have when merged. Nothing is left where moving past
/// it fails.
pub open spec fn moved(ss: Seq<Stream>) -> Seq<Stream> {
    let l = merge_iterator::lead(ss);
    if l < 0 {
        ss
    } else {
        let key = ss[l].entries[0].key;
        if merge_iterator::move_fault(ss, key) is Some {
            both_ended()
        } else {
            merge_iterator::all_moved_past(ss, key)
        }
    }
}

/// Nothing merged with nothing is nothing.
pub proof fn lemma_both_ended()
    ensures
        merge_iterator::merged(both_ended()) == Stream::ended(),
        merge_iterator::lead(both_ended()) < 0,
{
    lemma_pair_lead(Stream::ended(), Stream::ended());
}

/// Moving on leaves what the merged stream has behind its first entry.
pub proof fn lemma_moved(ss: Seq<Stream>)
    requires
        merge_iterator::merged(ss).entries.len() > 0,
    ensures
        merge_iterator::merged(moved(ss)) == merge_iterator::merged(ss).rest(),
        merge_iterator::total(moved(ss)) < merge_iterator::total(ss),
{
    let l = merge_iterator::lead(ss);
    let key = ss[l].entries[0].key;
    merge_iterator::lemma_lead(ss);
    merge_iterator::lemma_merged_wf(ss);
    merge_iterator::lemma_merged_wf(moved(ss));
    merge_iterator::lemma_total_moved(ss, key, l);
    if merge_iterator::move_fault(ss, key) is Some {
        lemma_both_ended();
        reveal_with_fuel(merge_iterator::total, 3);
        assert(both_ended().drop_last() =~= seq![Stream::ended()]);
    } else {
        let rest = merge_iterator::merged(moved(ss));
        assert(merge_iterator::merged(ss).entries.skip(1) =~= rest.entries);
    }
}

/// How often a stream moves is counted move by move.
pub proof fn lemma_moves_step(ss: Seq<Stream>, i: int, n: nat)
    requires
        merge_iterator::lead(ss) >= 0,
    ensures
        merge_iterator::moves_of(ss, i, n + 1) == merge_iterator::moves_of(ss, i, 1)
            + merge_iterator::moves_of(moved(ss), i, n),
{
    reveal_with_fuel(merge_iterator::moves_of, 2);
    lemma_both_ended();
}

/// Merges two iterators. Of entries with one key it hands out the one of the first iterator.
pub struct TwoMergeIterator<A: StorageIterator, B: StorageIterator> {
    a: A,
    b: B,
    failed: bool,
}

impl<A: StorageIterator, B: StorageIterator> TwoMergeIterator<A, B> {
    /// Merges the two iterators.
    pub fn create(a: A, b: B) -> (r: Self)
        requires
            a.wf(),
            b.wf(),
        ensures
            r.wf(),
            r.stream() == merge_iterator::merged(seq![a.stream(), b.stream()]),
            r.parts() == seq![a.stream(), b.stream()],
            r.first() == a,
            r.second() == b,
    {
        TwoMergeIterator { a, b, failed: false }
    }

    /// What the two iterators have left. Nothing counts once a move has failed.
    pub closed spec fn parts(&self) -> Seq<Stream> {
        if self.failed {
            both_ended()
        } else {
            self.pair()
        }
    }

    /// The first iterator.
    pub closed spec fn first(&self) -> A {
        self.a
    }

    /// The second iterator.
    pub closed spec fn second(&self) -> B {
        self.b
    }

    /// The iterators under the two iterators count, after as many moves as each of them makes.
    pub proof fn lemma_active(&self, n: nat)
        ensures
            self.active_after(0) == self.first().active_after(0) + self.second().active_after(0),
            self.stream().entries.len() > 0 ==> self.active_after(n) == self.first().active_after(
                merge_iterator::moves_of(self.parts(), 0, n),
            ) + self.second().active_after(merge_iterator::moves_of(self.parts(), 1, n)),
    {
    }

    /// What is left is merged from the parts.
    pub proof fn lemma_parts(&self)
        requires
            self.wf(),
        ensures
            self.parts().len() == 2,
            self.stream() == merge_iterator::merged(self.parts()),
            self.first().wf(),
            self.stream().entries.len() > 0 ==> self.parts()[0] == self.first().stream(),
    {
        lemma_both_ended();
    }

    /// The first iterator.
    pub fn first_iter(&self) -> (r: &A)
        ensures
            *r == self.first(),
    {
        &self.a
    }

    /// Puts another iterator in the place of the first one.
    pub fn replace_first(&mut self, a: A)
        requires
            old(self).wf(),
            old(self).stream().entries.len() > 0,
            a.wf(),
        ensures
            final(self).wf(),
            final(self).first() == a,
            final(self).second() == old(self).second(),
            final(self).parts() == seq![a.stream(), old(self).parts()[1]],
    {
        self.a = a;
        assert(self.parts() =~= seq![a.stream(), old(self).parts()[1]]);
    }

    spec fn pair(&self) -> Seq<Stream> {
        seq![self.a.stream(), self.b.stream()]
    }

    /// Whether the current entry is the one of the first iterator.
    fn from_a(&self) -> (r: bool)
        requires
            self.a.wf(),
            self.b.wf(),
        ensures
            self.a.stream().entries.len() > 0 || self.b.stream().entries.len() > 0
                ==> merge_iterator::lead(self.pair()) == if r {
                0int
            } else {
                1int
            },
            self.a.stream().entries.len() == 0 && self.b.stream().entries.len() == 0
                ==> merge_iterator::lead(self.pair()) < 0,
    {
        proof {
            lemma_pair_lead(self.a.stream(), self.b.stream());
        }
        if !self.a.is_valid() {
            return false;
        }
        if !self.b.is_valid() {
            return true;
        }
        !self.b.key().precedes(self.a.key())
    }
}

/// Which of two streams leads.
pub proof fn lemma_pair_lead(a: Stream, b: Stream)
    ensures
        ({
            let l = merge_iterator::lead(seq![a, b]);
            if b.entries.len() == 0 {
                l == if a.entries.len() == 0 {
                    -1int
                } else {
                    0int
                }
            } else if a.entries.len() == 0 || key::key_lt(b.entries[0].key, a.entries[0].key) {
                l == 1
            } else {
                l == 0
            }
        }),
{
    reveal_with_fuel(merge_iterator::lead, 3);
    let s = seq![a, b];
    assert(s.drop_last() =~= seq![a]);
}

proof fn lemma_pair_move(a: Stream, b: Stream, key: Key)
    ensures
        merge_iterator::all_moved_past(seq![a, b], key) == seq![
            merge_iterator::moved_past(a, key),
            merge_iterator::moved_past(b, key),
        ],
        merge_iterator::move_fault(seq![a, b], key) == if merge_iterator::begins_with(a, key)
            && a.at_fault() {
            a.fault
        } else if merge_iterator::begins_with(b, key) && b.at_fault() {
            b.fault
        } else {
            None
        },
{
    reveal_with_fuel(merge_iterator::move_fault, 3);
    let s = seq![a, b];
    assert(s.drop_last() =~= seq![a]);
    assert(merge_iterator::all_moved_past(s, key) =~= seq![
        merge_iterator::moved_past(a, key),
        merge_iterator::moved_past(b, key),
    ]);
}

/// How often two streams move when the merged stream moves.
proof fn lemma_pair_moves(a: Stream, b: Stream, key: Key)
    requires
        ({
            let ss = seq![a, b];
            merge_iterator::lead(ss) >= 0 && ss[merge_iterator::lead(ss)].entries[0].key == key
        }),
    ensures
        ({
            let ss = seq![a, b];
            let first: nat = if merge_iterator::begins_with(a, key) {
                1
            } else {
                0
            };
            let second: nat = if merge_iterator::begins_with(b, key) && !(
            merge_iterator::begins_with(a, key) && a.at_fault()) {
                1
            } else {
                0
            };
            let more = merge_iterator::all_moved_past(ss, key);
            &&& merge_iterator::moves_of(ss, 0, 1) == first
            &&& merge_iterator::moves_of(ss, 1, 1) == second
            &&& forall|n: nat| #[trigger]
                merge_iterator::moves_of(ss, 0, n + 1) == first + if merge_iterator::move_fault(
                    ss,
                    key,
                ) is Some {
                    0
                } else {
                    merge_iterator::moves_of(more, 0, n)
                }
            &&& forall|n: nat| #[trigger]
                merge_iterator::moves_of(ss, 1, n + 1) == second + if merge_iterator::move_fault(
                    ss,
                    key,
                ) is Some {
                    0
                } else {
                    merge_iterator::moves_of(more, 1, n)
                }
        }),
{
    let ss = seq![a, b];
    reveal_with_fuel(merge_iterator::moves_of, 2);
    reveal_with_fuel(merge_iterator::move_fault, 3);
    assert(ss.take(0) =~= Seq::empty());
    assert(ss.take(1) =~= seq![a]);
    assert(seq![a].drop_last() =~= Seq::empty());
}

impl<A: StorageIterator, B: StorageIterator> StorageIterator for TwoMergeIterator<A, B> {
    closed spec fn wf(&self) -> bool {
        self.a.wf() && self.b.wf()
    }

    closed spec fn stream(&self) -> Stream {
        if self.failed {
            Stream::ended()
        } else {
            merge_iterator::merged(self.pair())
        }
    }

    open spec fn tolerant(&self) -> bool {
        false
    }

    closed spec fn active_after(&self, n: nat) -> nat {
        if self.failed {
            self.a.active_after(0) + self.b.active_after(0)
        } else {
            self.a.active_after(merge_iterator::moves_of(self.pair(), 0, n))
                + self.b.active_after(merge_iterator::moves_of(self.pair(), 1, n))
        }
    }

    proof fn lemma_stream_wf(&self) {
        merge_iterator::lemma_merged_wf(self.pair());
    }

    fn is_valid(&self) -> (r: bool) {
        proof {
            lemma_pair_lead(self.a.stream(), self.b.stream());
            merge_iterator::lemma_merged_wf(self.pair());
        }
        !self.failed && (self.a.is_valid() || self.b.is_valid())
    }

    fn key(&self) -> (r: KeySlice<'_>) {
        proof {
            lemma_pair_lead(self.a.stream(), self.b.stream());
            merge_iterator::lemma_merged_wf(self.pair());
        }
        if self.from_a() {
            self.a.key()
        } else {
            self.b.key()
        }
    }

    fn value(&self) -> (r: &[u8]) {
        proof {
            lemma_pair_lead(self.a.stream(), self.b.stream());
            merge_iterator::lemma_merged_wf(self.pair());
        }
        if self.from_a() {
            self.a.value()
        } else {
            self.b.value()
        }
    }

    fn next(&mut self) -> (r: Result<(), StorageError>)
        ensures
            final(self).parts() == moved(old(self).parts()),
            forall|m: nat| #[trigger]
                final(self).first().active_after(m) == old(self).first().active_after(
                    m + merge_iterator::moves_of(old(self).parts(), 0, 1),
                ),
            forall|m: nat| #[trigger]
                final(self).second().active_after(m) == old(self).second().active_after(
                    m + merge_iterator::moves_of(old(self).parts(), 1, 1),
                ),
    {
        proof {
            lemma_pair_lead(self.a.stream(), self.b.stream());
            merge_iterator::lemma_merged_wf(self.pair());
        }
        let ghost a0 = self.a.stream();
        let ghost b0 = self.b.stream();
        let key: KeyVec = self.key().to_key_vec();
        proof {
            lemma_pair_move(a0, b0, key@);
            lemma_pair_moves(a0, b0, key@);
        }
        if self.a.is_valid() && self.a.key().same_as(key.as_key_slice()) {
            match self.a.next() {
                Ok(()) => {},
                Err(e) => {
                    self.failed = true;
                    return Err(e);
                },
            }
        }
        if self.b.is_valid() && self.b.key().same_as(key.as_key_slice()) {
            match self.b.next() {
                Ok(()) => {},
                Err(e) => {
                    self.failed = true;
                    return Err(e);
                },
            }
        }
        proof {
            assert(self.pair() == merge_iterator::all_moved_past(seq![a0, b0], key@));
            merge_iterator::lemma_merged_wf(self.pair());
            assert(old(self).stream().entries.skip(1) =~= self.stream().entries);
        }
        Ok(())
    }

    fn num_active_iterators(&self) -> (r: usize) {
        self.a.num_active_iterators() + self.b.num_active_iterators()
    }
}

} // verus!
