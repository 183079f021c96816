//! What every iterator over stored entries offers.

use vstd::prelude::*;

use crate::error::StorageError;
use crate::key::{Entry, KeySlice};

pub mod concat_iterator;
pub mod merge_iterator;
pub mod two_merge_iterator;

verus! {

/// What an iterator will still hand out: entries, and the error that moving past the last of them
/// reports, if there is one.
#[verifier::ext_equal]
pub struct Stream {
    pub entries: Seq<Entry>,
    pub fault: Option<StorageError>,
}

impl Stream {
    /// Nothing is left and nothing failed.
    pub open spec fn ended() -> Stream {
        Stream { entries: Seq::empty(), fault: None }
    }

    /// An error can only stand behind an entry.
    pub open spec fn wf(self) -> bool {
        self.entries.len() == 0 ==> self.fault is None
    }

    /// The entry that moving past reports the error.
    pub open spec fn at_fault(self) -> bool {
        self.entries.len() == 1 && self.fault is Some
    }

    /// What is left behind the first entry.
    pub open spec fn rest(self) -> Stream {
        if self.at_fault() {
            Stream::ended()
        } else {
            Stream { entries: self.entries.skip(1), fault: self.fault }
        }
    }

    /// The stream that hands out `es` first.
    pub open spec fn after(self, es: Seq<Entry>) -> Stream {
        Stream { entries: es + self.entries, fault: self.fault }
    }

    /// What coming to the start of the stream gives. An error without an entry before it is
    /// reported at once.
    pub open spec fn landed(self) -> Result<Stream, StorageError> {
        if self.entries.len() == 0 && self.fault is Some {
            Err(self.fault->0)
        } else {
            Ok(self)
        }
    }

    /// What moving past the first entry reports.
    pub open spec fn step(self) -> Result<(), StorageError> {
        if self.at_fault() {
            Err(self.fault->0)
        } else {
            Ok(())
        }
    }
}

/// How what is left changes when an iterator moves on: the first entry goes, and an error stays where
/// it is until its turn. Moving past the last entry reports the error behind it, and nothing is left
/// then.
pub proof fn lemma_moving_on(s: Stream)
    requires
        s.entries.len() > 0,
    ensures
        s.entries.len() > 1 || s.fault is None ==> {
            &&& s.step() == Ok::<(), StorageError>(())
            &&& s.rest().entries == s.entries.skip(1)
            &&& s.rest().fault == s.fault
        },
        s.entries.len() == 1 && s.fault is Some ==> {
            &&& s.step() == Err::<(), StorageError>(s.fault->0)
            &&& s.rest().entries.len() == 0
            &&& s.rest().fault is None
        },
{
}

/// An iterator that starts before any entry with an error reports it at once; any other is made as it
/// is.
pub proof fn lemma_landing(s: Stream)
    ensures
        s.entries.len() > 0 || s.fault is None ==> s.landed() == Ok::<Stream, StorageError>(s),
        s.entries.len() == 0 && s.fault is Some ==> s.landed() == Err::<Stream, StorageError>(
            s.fault->0,
        ),
{
}

/// An iterator over stored entries. It stands on the first of the entries that are left.
pub trait StorageIterator: Sized {
    /// The invariant of the iterator.
    spec fn wf(&self) -> bool;

    /// What is left.
    spec fn stream(&self) -> Stream;

    /// Whether `next` may be called when nothing is left.
    spec fn tolerant(&self) -> bool;

    /// The number of underlying iterators after the next `n` moves.
    spec fn active_after(&self, n: nat) -> nat;

    /// What is left is a possible stream.
    proof fn lemma_stream_wf(&self)
        requires
            self.wf(),
        ensures
            self.stream().wf(),
    ;

    /// Whether the iterator stands on an entry.
    fn is_valid(&self) -> (r: bool)
        requires
            self.wf(),
        ensures
            r == (self.stream().entries.len() > 0),
    ;

    /// The key of the current entry.
    fn key(&self) -> (r: KeySlice<'_>)
        requires
            self.wf(),
            self.stream().entries.len() > 0,
        ensures
            r@ == self.stream().entries[0].key,
    ;

    /// The value of the current entry.
    fn value(&self) -> (r: &[u8])
        requires
            self.wf(),
            self.stream().entries.len() > 0,
        ensures
            r@ == self.stream().entries[0].value,
    ;

    /// Moves to the next entry.
    fn next(&mut self) -> (r: Result<(), StorageError>)
        requires
            old(self).wf(),
            old(self).stream().entries.len() > 0 || old(self).tolerant(),
        ensures
            final(self).wf(),
            old(self).stream().entries.len() > 0 ==> final(self).stream() == old(
                self,
            ).stream().rest(),
            old(self).stream().entries.len() > 0 ==> r == old(self).stream().step(),
            old(self).stream().entries.len() > 0 ==> forall|n: nat| #[trigger]
                final(self).active_after(n) == old(self).active_after(n + 1),
    ;

    /// The number of underlying iterators.
    fn num_active_iterators(&self) -> (r: usize)
        requires
            self.wf(),
            self.active_after(0) <= usize::MAX,
        ensures
            r == self.active_after(0),
    ;
}

} // verus!
