//! Multi-version concurrency control.

use std::collections::{BTreeMap, HashSet};

use vstd::prelude::*;

pub mod txn;
pub mod watermark;

use self::txn::Transaction;
use self::watermark::Watermark;

verus! {

/// The mathematical value of what is remembered of a committed transaction.
#[verifier::ext_equal]
pub struct CommittedView {
    pub hashes: Set<u32>,
    pub read_ts: u64,
    pub commit_ts: u64,
}

/// What is remembered of a committed transaction: the hashes of the keys that it wrote, and when it
/// read and committed.
pub struct CommittedTxnData {
    pub key_hashes: HashSet<u32>,
    pub read_ts: u64,
    pub commit_ts: u64,
}

impl View for CommittedTxnData {
    type V = CommittedView;

    open spec fn view(&self) -> CommittedView {
        CommittedView {
            hashes: self.key_hashes@,
            read_ts: self.read_ts,
            commit_ts: self.commit_ts,
        }
    }
}

/// The mathematical value of the version control.
#[verifier::ext_equal]
pub struct MvccView {
    pub latest: u64,
    pub readers: Map<u64, usize>,
    pub committed: Map<u64, CommittedView>,
}

impl MvccView {
    /// The time before which no version is needed but the newest one of each key: the least time
    /// that is being read, and the last commit time where nothing is being read.
    pub open spec fn watermark(self) -> u64 {
        if exists|ts: u64| watermark::is_lowest(self.readers, ts) {
            choose|ts: u64| watermark::is_lowest(self.readers, ts)
        } else {
            self.latest
        }
    }

    /// Nobody reads a time that is not committed yet.
    pub open spec fn reads_past(self) -> bool {
        forall|ts: u64| #[trigger] self.readers.dom().contains(ts) ==> ts <= self.latest
    }
}

/// Nobody reads a time that is not committed yet: that is so in the beginning, and beginning a
/// transaction, committing at a later time and ending a transaction keep it so. The watermark is
/// then not behind the last commit time.
pub proof fn lemma_reads_past(v: MvccView, later: u64, ts: u64)
    requires
        v.reads_past(),
        later >= v.latest,
    ensures
        (MvccView { latest: later, readers: Map::empty(), committed: Map::empty() }).reads_past(),
        (MvccView { readers: watermark::reader_added(v.readers, v.latest), ..v }).reads_past(),
        (MvccView { latest: later, ..v }).reads_past(),
        v.readers.dom().contains(ts) ==> (MvccView {
            readers: watermark::reader_removed(v.readers, ts),
            ..v
        }).reads_past(),
        v.watermark() <= v.latest,
{
    if exists|t: u64| watermark::is_lowest(v.readers, t) {
        let t = choose|t: u64| watermark::is_lowest(v.readers, t);
        assert(v.readers.dom().contains(t));
    }
}

/// A hash is in both sets.
pub open spec fn intersects(a: Set<u32>, b: Set<u32>) -> bool {
    exists|h: u32| #[trigger] a.contains(h) && b.contains(h)
}

/// A transaction that committed after `read_ts` wrote a key that was read.
pub open spec fn conflicts(
    committed: Map<u64, CommittedView>,
    read_ts: u64,
    reads: Set<u32>,
) -> bool {
    exists|ts: u64| #[trigger]
        committed.dom().contains(ts) && ts > read_ts && intersects(committed[ts].hashes, reads)
}

/// The committed transactions without those that committed before `ts`.
pub open spec fn pruned(committed: Map<u64, CommittedView>, ts: u64) -> Map<u64, CommittedView> {
    committed.restrict(Set::new(|t: u64| t >= ts))
}

/// No time that is being read is before the watermark, so no version that a reader sees is dropped.
pub proof fn lemma_watermark_low(v: MvccView, ts: u64)
    requires
        v.readers.dom().contains(ts),
    ensures
        v.watermark() <= ts,
{
    watermark::lemma_lowest(v.readers, ts);
}

/// The watermark is a time that is being read where there is one, and the last commit time where
/// nothing is being read.
pub proof fn lemma_watermark_exactly(v: MvccView)
    ensures
        (exists|ts: u64| #[trigger] v.readers.dom().contains(ts)) ==> v.readers.dom().contains(
            v.watermark(),
        ),
        forall|ts: u64| #[trigger] v.readers.dom().contains(ts) ==> v.watermark() <= ts,
        !(exists|ts: u64| #[trigger] v.readers.dom().contains(ts)) ==> v.watermark() == v.latest,
{
    if exists|ts: u64| #[trigger] v.readers.dom().contains(ts) {
        let ts = choose|ts: u64| #[trigger] v.readers.dom().contains(ts);
        watermark::lemma_lowest(v.readers, ts);
    }
}

/// Forgetting what committed before a time keeps exactly what committed then or later, as it was.
pub proof fn lemma_pruned_exactly(committed: Map<u64, CommittedView>, ts: u64, t: u64)
    ensures
        pruned(committed, ts).dom().contains(t) <==> committed.dom().contains(t) && t >= ts,
        pruned(committed, ts).dom().contains(t) ==> pruned(committed, ts)[t] == committed[t],
{
}

/// A check finds a conflict exactly if one hash was read and is among those that a transaction wrote
/// which committed after the read time.
pub proof fn lemma_conflicts_exactly(
    committed: Map<u64, CommittedView>,
    read_ts: u64,
    reads: Set<u32>,
)
    ensures
        conflicts(committed, read_ts, reads) <==> exists|ts: u64, h: u32| #[trigger]
            committed.dom().contains(ts) && ts > read_ts && #[trigger] reads.contains(h)
                && committed[ts].hashes.contains(h),
{
    if conflicts(committed, read_ts, reads) {
        let ts = choose|ts: u64| #[trigger]
            committed.dom().contains(ts) && ts > read_ts && intersects(committed[ts].hashes, reads);
        let h = choose|h: u32| #[trigger] committed[ts].hashes.contains(h) && reads.contains(h);
        assert(committed.dom().contains(ts) && reads.contains(h));
    }
    if exists|ts: u64, h: u32| #[trigger]
        committed.dom().contains(ts) && ts > read_ts && #[trigger] reads.contains(h)
            && committed[ts].hashes.contains(h) {
        let (ts, h) = choose|ts: u64, h: u32| #[trigger]
            committed.dom().contains(ts) && ts > read_ts && #[trigger] reads.contains(h)
                && committed[ts].hashes.contains(h);
        assert(intersects(committed[ts].hashes, reads));
    }
}

/// Forgetting the transactions before the watermark changes no check of a transaction that is still
/// reading.
pub proof fn lemma_prune_keeps_conflicts(
    committed: Map<u64, CommittedView>,
    watermark: u64,
    read_ts: u64,
    reads: Set<u32>,
)
    requires
        watermark <= read_ts,
    ensures
        conflicts(pruned(committed, watermark), read_ts, reads) == conflicts(
            committed,
            read_ts,
            reads,
        ),
{
    let p = pruned(committed, watermark);
    if conflicts(committed, read_ts, reads) {
        let ts = choose|ts: u64| #[trigger]
            committed.dom().contains(ts) && ts > read_ts && intersects(committed[ts].hashes, reads);
        assert(p.dom().contains(ts));
    }
    if conflicts(p, read_ts, reads) {
        let ts = choose|ts: u64| #[trigger]
            p.dom().contains(ts) && ts > read_ts && intersects(p[ts].hashes, reads);
        assert(committed.dom().contains(ts));
    }
}

/// A transaction that read a key which another transaction wrote and committed later finds the
/// conflict.
pub proof fn lemma_conflict_found(
    committed: Map<u64, CommittedView>,
    other: CommittedView,
    read_ts: u64,
    reads: Set<u32>,
    h: u32,
)
    requires
        other.commit_ts > read_ts,
        other.hashes.contains(h),
        reads.contains(h),
    ensures
        conflicts(committed.insert(other.commit_ts, other), read_ts, reads),
{
    let c = committed.insert(other.commit_ts, other);
    assert(c.dom().contains(other.commit_ts));
    assert(intersects(c[other.commit_ts].hashes, reads));
}

/// Whether a hash is in both sets.
pub fn sets_intersect(a: &HashSet<u32>, b: &HashSet<u32>) -> (r: bool)
    ensures
        r == intersects(a@, b@),
{
    broadcast use vstd::std_specs::hash::group_hash_axioms;

    for h in it: a.iter()
        invariant
            it.seq().unref().to_set() == a@,
            forall|i: int| 0 <= i < it.index() ==> !b@.contains(*(#[trigger] it.seq()[i])),
    {
        if b.contains(h) {
            assert(a@.contains(*h));
            return true;
        }
    }
    false
}

/// A copy of a set, and whether it has any member.
pub fn copy_set(a: &HashSet<u32>) -> (r: (HashSet<u32>, bool))
    ensures
        r.0@ == a@,
        r.1 == !(a@ =~= Set::empty()),
{
    broadcast use vstd::std_specs::hash::group_hash_axioms;

    let mut out: HashSet<u32> = HashSet::new();
    let mut any: bool = false;
    for h in it: a.iter()
        invariant
            it.seq().unref().to_set() == a@,
            any == (it.index() > 0),
            forall|i: int| 0 <= i < it.index() ==> out@.contains(*(#[trigger] it.seq()[i])),
            forall|x: u32| #[trigger] out@.contains(x) ==> a@.contains(x),
    {
        assert(a@.contains(*h));
        out.insert(*h);
        any = true;
    }
    assert(out@ =~= a@);
    (out, any)
}

/// The version control: the last commit time, the times that are being read, and the transactions
/// that others have to be checked against.
pub struct LsmMvccInner {
    latest: u64,
    readers: Watermark,
    committed_txns: BTreeMap<u64, CommittedTxnData>,
}

impl View for LsmMvccInner {
    type V = MvccView;

    closed spec fn view(&self) -> MvccView {
        MvccView {
            latest: self.latest,
            readers: self.readers@,
            committed: self.committed_txns@.map_values(|d: CommittedTxnData| d@),
        }
    }
}

impl LsmMvccInner {
    /// Times without readers are not counted.
    pub closed spec fn wf(&self) -> bool {
        self.readers.wf()
    }

    /// A time that is being read has at least one reader.
    pub proof fn lemma_readers_positive(&self, ts: u64)
        requires
            self.wf(),
            self@.readers.dom().contains(ts),
        ensures
            self@.readers[ts] > 0,
    {
    }

    /// Without readers and committed transactions, at the given time.
    pub fn new(initial_ts: u64) -> (r: Self)
        ensures
            r.wf(),
            r@ == (MvccView {
                latest: initial_ts,
                readers: Map::empty(),
                committed: Map::empty(),
            }),
    {
        let r = LsmMvccInner {
            latest: initial_ts,
            readers: Watermark::new(),
            committed_txns: BTreeMap::new(),
        };
        assert(r@.committed =~= Map::empty());
        r
    }

    /// The last commit time.
    pub fn latest_commit_ts(&self) -> (r: u64)
        ensures
            r == self@.latest,
    {
        self.latest
    }

    /// The commit time of the next write.
    pub fn next_commit_ts(&mut self) -> (r: u64)
        requires
            old(self).wf(),
            old(self)@.latest < u64::MAX,
        ensures
            final(self).wf(),
            r == old(self)@.latest + 1,
            final(self)@ == (MvccView { latest: r, ..old(self)@ }),
    {
        self.latest = self.latest + 1;
        self.latest
    }

    /// The time before which no version is needed but the newest one of each key.
    pub fn watermark(&self) -> (r: u64)
        ensures
            r == self@.watermark(),
    {
        match self.readers.watermark() {
            Some(ts) => {
                assert(watermark::is_lowest(self@.readers, ts));
                let ghost t = choose|t: u64| watermark::is_lowest(self@.readers, t);
                assert(t <= ts && ts <= t);
                ts
            },
            None => self.latest,
        }
    }

    /// Begins a transaction that reads what is committed now.
    pub fn new_txn(&mut self, serializable: bool) -> (r: Transaction)
        requires
            old(self).wf(),
            old(self)@.readers.dom().contains(old(self)@.latest) ==> old(self)@.readers[old(
                self,
            )@.latest] < usize::MAX,
        ensures
            final(self).wf(),
            final(self)@ == (MvccView {
                readers: watermark::reader_added(old(self)@.readers, old(self)@.latest),
                ..old(self)@
            }),
            r.wf(),
            r@ == txn::TxnView::begun(old(self)@.latest, serializable),
    {
        let read_ts: u64 = self.latest;
        self.readers.add_reader(read_ts);
        Transaction::begin(read_ts, serializable)
    }

    /// A transaction that reads at `read_ts` ends.
    pub fn remove_reader(&mut self, read_ts: u64)
        requires
            old(self).wf(),
            old(self)@.readers.dom().contains(read_ts),
        ensures
            final(self).wf(),
            final(self)@ == (MvccView {
                readers: watermark::reader_removed(old(self)@.readers, read_ts),
                ..old(self)@
            }),
    {
        self.readers.remove_reader(read_ts);
    }

    /// Whether a transaction that committed after `read_ts` wrote a key that was read.
    pub fn has_conflict(&self, read_ts: u64, reads: &HashSet<u32>) -> (r: bool)
        ensures
            r == conflicts(self@.committed, read_ts, reads@),
    {
        broadcast use vstd::std_specs::btree::group_btree_axioms;

        for ts in it: self.committed_txns.keys()
            invariant
                it.seq().unref().to_set() == self.committed_txns@.dom(),
                forall|i: int|
                    0 <= i < it.index() ==> !(*(#[trigger] it.seq()[i]) > read_ts && intersects(
                        self@.committed[*it.seq()[i]].hashes,
                        reads@,
                    )),
        {
            if *ts > read_ts {
                match self.committed_txns.get(ts) {
                    Some(data) => {
                        if sets_intersect(&data.key_hashes, reads) {
                            assert(self@.committed.dom().contains(*ts));
                            return true;
                        }
                    },
                    None => {},
                }
            }
        }
        proof {
            if conflicts(self@.committed, read_ts, reads@) {
                let ts = choose|ts: u64| #[trigger]
                    self@.committed.dom().contains(ts) && ts > read_ts && intersects(
                        self@.committed[ts].hashes,
                        reads@,
                    );
                assert(self.committed_txns@.dom().contains(ts));
            }
        }
        false
    }

    /// Remembers a committed transaction, and forgets those that nobody has to be checked against
    /// any more.
    pub fn record_commit(&mut self, data: CommittedTxnData)
        requires
            old(self).wf(),
        ensures
            final(self).wf(),
            final(self)@ == (MvccView {
                committed: pruned(
                    old(self)@.committed.insert(data.commit_ts, data@),
                    old(self)@.watermark(),
                ),
                ..old(self)@
            }),
    {
        broadcast use vstd::std_specs::btree::group_btree_axioms;

        let ghost d = data@;
        let low: u64 = self.watermark();
        self.committed_txns.insert(data.commit_ts, data);
        let ghost full = self.committed_txns@;
        let mut old_ones: Vec<u64> = Vec::new();
        for ts in it: self.committed_txns.keys()
            invariant
                it.seq().unref().to_set() == self.committed_txns@.dom(),
                self.committed_txns@ == full,
                forall|j: int| 0 <= j < old_ones@.len() ==> (#[trigger] old_ones@[j]) < low,
                forall|i: int|
                    0 <= i < it.index() && *(#[trigger] it.seq()[i]) < low ==> old_ones@.contains(
                        *it.seq()[i],
                    ),
        {
            let ghost before = old_ones@;
            if *ts < low {
                old_ones.push(*ts);
                assert(old_ones@[before.len() as int] == *ts);
                assert forall|x: u64| before.contains(x) implies old_ones@.contains(x) by {
                    let j = choose|j: int| 0 <= j < before.len() && before[j] == x;
                    assert(old_ones@[j] == x);
                }
            }
        }
        let mut j: usize = 0;
        while j < old_ones.len()
            invariant
                j <= old_ones@.len(),
                self.latest == old(self).latest,
                self.readers == old(self).readers,
                forall|t: u64| #[trigger]
                    self.committed_txns@.dom().contains(t) <==> full.dom().contains(t)
                        && !old_ones@.take(j as int).contains(t),
                forall|t: u64| #[trigger]
                    self.committed_txns@.dom().contains(t) ==> self.committed_txns@[t] == full[t],
            decreases old_ones@.len() - j,
        {
            let ghost done = old_ones@.take(j as int);
            let ghost next = old_ones@.take(j + 1);
            self.committed_txns.remove(&old_ones[j]);
            assert forall|t: u64| next.contains(t) <==> done.contains(t) || t == old_ones@[j as int] by {
                if next.contains(t) {
                    let i = choose|i: int| 0 <= i < next.len() && next[i] == t;
                    if i < j {
                        assert(done[i] == t);
                    }
                }
                if done.contains(t) {
                    let i = choose|i: int| 0 <= i < done.len() && done[i] == t;
                    assert(next[i] == t);
                }
                if t == old_ones@[j as int] {
                    assert(next[j as int] == t);
                }
            }
            j += 1;
        }
        proof {
            assert(old_ones@.take(j as int) =~= old_ones@);
            let want = pruned(old(self)@.committed.insert(d.commit_ts, d), low);
            assert forall|t: u64| self@.committed.dom().contains(t) <==> want.dom().contains(t) by {
                if old_ones@.contains(t) {
                    let i = choose|i: int| 0 <= i < old_ones@.len() && old_ones@[i] == t;
                    assert(old_ones@[i] < low);
                }
            }
            assert(self@.committed =~= want);
        }
    }
}

} // verus!
