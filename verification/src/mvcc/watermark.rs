//! Which points in time are being read.

use std::collections::BTreeMap;

use vstd::prelude::*;

verus! {

/// The least of the points in time that have readers.
pub open spec fn is_lowest(readers: Map<u64, usize>, ts: u64) -> bool {
    &&& readers.dom().contains(ts)
    &&& forall|u: u64| #[trigger] readers.dom().contains(u) ==> ts <= u
}

/// Where there are readers, one of their points in time is the least.
pub proof fn lemma_lowest(readers: Map<u64, usize>, ts: u64)
    requires
        readers.dom().contains(ts),
    ensures
        exists|t: u64| is_lowest(readers, t),
    decreases ts,
{
    if !is_lowest(readers, ts) {
        let u = choose|u: u64| #[trigger] readers.dom().contains(u) && u < ts;
        lemma_lowest(readers, u);
    }
}

/// The readers after one more reader came to a point in time.
pub open spec fn reader_added(readers: Map<u64, usize>, ts: u64) -> Map<u64, usize> {
    readers.insert(
        ts,
        if readers.dom().contains(ts) {
            (readers[ts] + 1) as usize
        } else {
            1
        },
    )
}

/// The readers after one reader left a point in time.
pub open spec fn reader_removed(readers: Map<u64, usize>, ts: u64) -> Map<u64, usize> {
    if readers[ts] == 1 {
        readers.remove(ts)
    } else {
        readers.insert(ts, (readers[ts] - 1) as usize)
    }
}

/// A reader that comes and leaves again changes nothing.
pub proof fn lemma_reader_leaves(readers: Map<u64, usize>, ts: u64)
    requires
        readers.dom().contains(ts) ==> 0 < readers[ts] < usize::MAX,
    ensures
        reader_removed(reader_added(readers, ts), ts) == readers,
{
    assert(reader_removed(reader_added(readers, ts), ts) =~= readers);
}

/// A reader that comes to a time is one more at that time and changes no other time; a time without
/// readers has one then.
pub proof fn lemma_reader_counted(readers: Map<u64, usize>, ts: u64, other: u64)
    requires
        readers.dom().contains(ts) ==> readers[ts] < usize::MAX,
        other != ts,
    ensures
        reader_added(readers, ts).dom().contains(ts),
        readers.dom().contains(ts) ==> reader_added(readers, ts)[ts] == readers[ts] + 1,
        !readers.dom().contains(ts) ==> reader_added(readers, ts)[ts] == 1,
        reader_added(readers, ts).dom().contains(other) <==> readers.dom().contains(other),
        reader_added(readers, ts)[other] == readers[other],
{
}

/// A reader that leaves a time is one less at that time, and the last one that leaves it takes the
/// time along; no other time changes.
pub proof fn lemma_reader_uncounted(readers: Map<u64, usize>, ts: u64, other: u64)
    requires
        readers.dom().contains(ts),
        readers[ts] > 0,
        other != ts,
    ensures
        reader_removed(readers, ts).dom().contains(ts) <==> readers[ts] > 1,
        readers[ts] > 1 ==> reader_removed(readers, ts)[ts] == readers[ts] - 1,
        reader_removed(readers, ts).dom().contains(other) <==> readers.dom().contains(other),
        reader_removed(readers, ts)[other] == readers[other],
{
}

/// A time is the least that is being read exactly if it is being read and nothing before it is.
pub proof fn lemma_lowest_exactly(readers: Map<u64, usize>, ts: u64)
    ensures
        is_lowest(readers, ts) <==> readers.dom().contains(ts) && !(exists|u: u64| #[trigger]
            readers.dom().contains(u) && u < ts),
{
}

/// Counts the readers of each point in time.
pub struct Watermark {
    readers: BTreeMap<u64, usize>,
}

impl View for Watermark {
    type V = Map<u64, usize>;

    closed spec fn view(&self) -> Map<u64, usize> {
        self.readers@
    }
}

impl Watermark {
    /// A point in time without readers is not counted.
    pub open spec fn wf(&self) -> bool {
        forall|ts: u64| #[trigger] self@.dom().contains(ts) ==> self@[ts] > 0
    }

    /// Without readers.
    pub fn new() -> (r: Self)
        ensures
            r.wf(),
            r@ == Map::<u64, usize>::empty(),
    {
        Watermark { readers: BTreeMap::new() }
    }

    /// A reader comes to a point in time.
    pub fn add_reader(&mut self, ts: u64)
        requires
            old(self).wf(),
            old(self)@.dom().contains(ts) ==> old(self)@[ts] < usize::MAX,
        ensures
            final(self).wf(),
            final(self)@ == reader_added(old(self)@, ts),
    {
        broadcast use vstd::std_specs::btree::group_btree_axioms;

        let count: usize = match self.readers.get(&ts) {
            Some(n) => *n + 1,
            None => 1,
        };
        self.readers.insert(ts, count);
    }

    /// A reader leaves a point in time.
    pub fn remove_reader(&mut self, ts: u64)
        requires
            old(self).wf(),
            old(self)@.dom().contains(ts),
        ensures
            final(self).wf(),
            final(self)@ == reader_removed(old(self)@, ts),
    {
        broadcast use vstd::std_specs::btree::group_btree_axioms;

        let count: usize = match self.readers.get(&ts) {
            Some(n) => *n,
            None => 0,
        };
        if count == 1 {
            self.readers.remove(&ts);
        } else {
            self.readers.insert(ts, count - 1);
        }
    }

    /// The number of points in time that have readers.
    pub fn num_retained_snapshots(&self) -> (r: usize)
        ensures
            r == self@.dom().len(),
    {
        broadcast use vstd::std_specs::btree::group_btree_axioms;

        self.readers.len()
    }

    /// The least of the points in time that have readers.
    pub fn watermark(&self) -> (r: Option<u64>)
        ensures
            match r {
                Some(ts) => is_lowest(self@, ts),
                None => self@.dom() =~= Set::empty(),
            },
    {
        broadcast use vstd::std_specs::btree::group_btree_axioms;

        let mut least: Option<u64> = None;
        for ts in it: self.readers.keys()
            invariant
                it.seq().unref().to_set() == self.readers@.dom(),
                match least {
                    Some(t) => {
                        &&& self.readers@.dom().contains(t)
                        &&& forall|i: int| 0 <= i < it.index() ==> t <= *(#[trigger] it.seq()[i])
                    },
                    None => it.index() == 0,
                },
        {
            match least {
                None => {
                    least = Some(*ts);
                },
                Some(t) => {
                    if *ts < t {
                        least = Some(*ts);
                    }
                },
            }
        }
        least
    }
}

} // verus!
