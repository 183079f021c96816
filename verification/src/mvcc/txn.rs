//! Transactions.

use std::collections::HashSet;

use crossbeam_skiplist::SkipMap;
use vstd::prelude::*;

use super::{CommittedTxnData, CommittedView, LsmMvccInner, MvccView};
use crate::error::StorageError;
use crate::hash;
use crate::iterators::merge_iterator;
use crate::iterators::two_merge_iterator;
use crate::iterators::two_merge_iterator::TwoMergeIterator;
use crate::iterators::{StorageIterator, Stream};
use crate::key;
use crate::key::{Entry, Key, KeySlice, TS_DEFAULT};
use crate::lsm_iterator;
use crate::lsm_iterator::Bound;
use crate::mvcc;
use crate::mvcc::watermark;
use crate::skiplist;
use crate::skiplist::ItemBound;

verus! {

/// Why a transaction cannot be committed.
#[derive(Clone, Copy, Debug, PartialEq, Eq, Structural)]
pub enum TxnError {
    /// It was committed before.
    AlreadyCommitted,
    /// It read a key that was written meanwhile.
    Conflict,
}

/// A write.
#[derive(Debug, PartialEq, Eq)]
pub enum WriteBatchRecord {
    Put(Vec<u8>, Vec<u8>),
    Del(Vec<u8>),
}

impl WriteBatchRecord {
    /// The key that is written.
    pub open spec fn target(&self) -> Seq<u8> {
        match self {
            WriteBatchRecord::Put(k, _) => k@,
            WriteBatchRecord::Del(k) => k@,
        }
    }

    /// The record is the write of a value. An empty value deletes the key.
    pub open spec fn writes(&self, value: Seq<u8>) -> bool {
        match self {
            WriteBatchRecord::Put(_, v) => v@ == value && value.len() > 0,
            WriteBatchRecord::Del(_) => value.len() == 0,
        }
    }
}

/// The records are the writes of a buffer in key order.
pub open spec fn batch_of(batch: Seq<WriteBatchRecord>, local: Map<Seq<u8>, Seq<u8>>) -> bool {
    &&& forall|i: int, j: int|
        0 <= i < j < batch.len() ==> key::bytes_lt(
            (#[trigger] batch[i]).target(),
            (#[trigger] batch[j]).target(),
        )
    &&& forall|i: int|
        0 <= i < batch.len() ==> local.dom().contains((#[trigger] batch[i]).target())
            && batch[i].writes(local[batch[i].target()])
    &&& forall|k: Seq<u8>| #[trigger]
        local.dom().contains(k) ==> exists|i: int|
            0 <= i < batch.len() && (#[trigger] batch[i]).target() == k
}

/// The mathematical value of a transaction. The writes and reads are hashes of keys, and are kept
/// for serializable transactions only.
#[verifier::ext_equal]
pub struct TxnView {
    pub read_ts: u64,
    pub local: Map<Seq<u8>, Seq<u8>>,
    pub committed: bool,
    pub serializable: bool,
    pub writes: Set<u32>,
    pub reads: Set<u32>,
}

impl TxnView {
    /// A transaction that has done nothing.
    pub open spec fn begun(read_ts: u64, serializable: bool) -> TxnView {
        TxnView {
            read_ts,
            local: Map::empty(),
            committed: false,
            serializable,
            writes: Set::empty(),
            reads: Set::empty(),
        }
    }

    /// The transaction after it read a key.
    pub open spec fn having_read(self, k: Seq<u8>) -> TxnView {
        if self.serializable {
            TxnView { reads: self.reads.insert(hash::fingerprint32_of(k)), ..self }
        } else {
            self
        }
    }

    /// The transaction after it wrote a value. An empty value deletes the key. One that was
    /// committed writes nothing more.
    pub open spec fn having_written(self, k: Seq<u8>, value: Seq<u8>) -> TxnView {
        if self.committed {
            self
        } else {
            TxnView {
                local: self.local.insert(k, value),
                writes: if self.serializable {
                    self.writes.insert(hash::fingerprint32_of(k))
                } else {
                    self.writes
                },
                ..self
            }
        }
    }

    /// A key can be remembered as read or written: it can be hashed where hashes are kept.
    pub open spec fn can_note(self, k: Seq<u8>) -> bool {
        self.serializable ==> hash::hashable(k)
    }

    /// What the transaction reads for a key: its own write, and otherwise what is stored.
    pub open spec fn value_of(self, k: Seq<u8>, stored: Option<Seq<u8>>) -> Option<Seq<u8>> {
        if !self.local.dom().contains(k) {
            stored
        } else if self.local[k].len() == 0 {
            None
        } else {
            Some(self.local[k])
        }
    }

    /// Why the transaction cannot be committed. A serializable one conflicts with those that were
    /// committed after it began and wrote what it read, whether or not it wrote anything itself.
    pub open spec fn obstacle(self, v: MvccView) -> Option<TxnError> {
        if self.committed {
            Some(TxnError::AlreadyCommitted)
        } else if self.serializable && mvcc::conflicts(v.committed, self.read_ts, self.reads) {
            Some(TxnError::Conflict)
        } else {
            None
        }
    }

    /// The version control after the writes of the transaction were stored at `commit_ts`.
    pub open spec fn recorded(self, v: MvccView, commit_ts: u64) -> MvccView {
        if self.serializable && !(self.writes =~= Set::empty()) {
            MvccView {
                committed: mvcc::pruned(
                    v.committed.insert(
                        commit_ts,
                        CommittedView { hashes: self.writes, read_ts: self.read_ts, commit_ts },
                    ),
                    v.watermark(),
                ),
                ..v
            }
        } else {
            v
        }
    }
}

/// A transaction reads its own writes: after a write of a value it reads the value, and after a
/// delete nothing, whatever is stored.
pub proof fn lemma_reads_own_write(
    t: TxnView,
    k: Seq<u8>,
    value: Seq<u8>,
    stored: Option<Seq<u8>>,
)
    requires
        !t.committed,
    ensures
        t.having_written(k, value).value_of(k, stored) == if value.len() == 0 {
            None
        } else {
            Some(value)
        },
{
}

/// A transaction that was committed cannot be committed again, and nothing that it writes then
/// changes it.
pub proof fn lemma_committed_stays(t: TxnView, k: Seq<u8>, value: Seq<u8>, v: MvccView)
    requires
        t.committed,
    ensures
        t.having_written(k, value) == t,
        t.obstacle(v) == Some(TxnError::AlreadyCommitted),
{
}

/// A write leaves what the transaction reads for other keys as it was.
pub proof fn lemma_write_leaves_others(
    t: TxnView,
    k: Seq<u8>,
    value: Seq<u8>,
    other: Seq<u8>,
    stored: Option<Seq<u8>>,
)
    requires
        other != k,
    ensures
        t.having_written(k, value).value_of(other, stored) == t.value_of(other, stored),
{
}

/// A serializable transaction that read a key cannot be committed once another serializable
/// transaction that wrote the key has committed after the first one began.
pub proof fn lemma_write_refuses_reader(
    writer: TxnView,
    reader: TxnView,
    v: MvccView,
    commit_ts: u64,
    k: Seq<u8>,
)
    requires
        writer.serializable,
        writer.writes.contains(hash::fingerprint32_of(k)),
        reader.serializable,
        reader.reads.contains(hash::fingerprint32_of(k)),
        !reader.committed,
        commit_ts > reader.read_ts,
        v.watermark() <= reader.read_ts,
    ensures
        reader.obstacle(writer.recorded(v, commit_ts)) == Some(TxnError::Conflict),
{
    let other = CommittedView { hashes: writer.writes, read_ts: writer.read_ts, commit_ts };
    mvcc::lemma_conflict_found(
        v.committed,
        other,
        reader.read_ts,
        reader.reads,
        hash::fingerprint32_of(k),
    );
    mvcc::lemma_prune_keeps_conflicts(
        v.committed.insert(commit_ts, other),
        v.watermark(),
        reader.read_ts,
        reader.reads,
    );
}

/// In a serializable transaction every read is remembered, whatever the transaction read or wrote
/// before, and no read is forgotten for it. Without serializability nothing is remembered. A read
/// changes nothing else.
pub proof fn lemma_read_remembered(t: TxnView, k: Seq<u8>)
    ensures
        t.serializable ==> t.having_read(k).reads.contains(hash::fingerprint32_of(k)),
        t.reads.subset_of(t.having_read(k).reads),
        forall|h: u32| #[trigger]
            t.having_read(k).reads.contains(h) ==> t.reads.contains(h) || (t.serializable && h
                == hash::fingerprint32_of(k)),
        t.having_read(k).local == t.local,
        t.having_read(k).writes == t.writes,
        t.having_read(k).read_ts == t.read_ts,
        t.having_read(k).serializable == t.serializable,
        t.having_read(k).committed == t.committed,
{
}

/// A scan that comes to an entry has read the entry's key, whatever was read or written before; one
/// that comes to no entry has read nothing.
pub proof fn lemma_scan_remembered(t: TxnView, s: Stream)
    ensures
        s.entries.len() > 0 && t.serializable ==> having_come_to(t, s).reads.contains(
            hash::fingerprint32_of(s.entries[0].key.key),
        ),
        t.reads.subset_of(having_come_to(t, s).reads),
        s.entries.len() == 0 ==> having_come_to(t, s) == t,
        having_come_to(t, s).local == t.local,
        having_come_to(t, s).writes == t.writes,
        having_come_to(t, s).read_ts == t.read_ts,
        having_come_to(t, s).serializable == t.serializable,
        having_come_to(t, s).committed == t.committed,
{
}

/// Before its commit, a transaction buffers each write and, where it is serializable, remembers that
/// the key was written. Writes of other keys, and everything that was read, stay as they were.
pub proof fn lemma_write_remembered(t: TxnView, k: Seq<u8>, value: Seq<u8>)
    requires
        !t.committed,
    ensures
        t.having_written(k, value).local.dom() == t.local.dom().insert(k),
        t.having_written(k, value).local[k] == value,
        forall|x: Seq<u8>|
            x != k && #[trigger] t.local.dom().contains(x) ==> t.having_written(k, value).local[x]
                == t.local[x],
        t.serializable ==> t.having_written(k, value).writes.contains(hash::fingerprint32_of(k)),
        t.writes.subset_of(t.having_written(k, value).writes),
        forall|h: u32| #[trigger]
            t.having_written(k, value).writes.contains(h) ==> t.writes.contains(h) || (
            t.serializable && h == hash::fingerprint32_of(k)),
        t.having_written(k, value).reads == t.reads,
        t.having_written(k, value).read_ts == t.read_ts,
        t.having_written(k, value).serializable == t.serializable,
        !t.having_written(k, value).committed,
{
    assert(t.having_written(k, value).local.dom() =~= t.local.dom().insert(k));
}

/// A transaction begins with nothing read, nothing written and nothing in the way of its commit: it
/// reads every key as it is stored at its time, and it can be committed whatever others committed.
pub proof fn lemma_begun(
    read_ts: u64,
    serializable: bool,
    k: Seq<u8>,
    stored: Option<Seq<u8>>,
    v: MvccView,
)
    ensures
        TxnView::begun(read_ts, serializable).read_ts == read_ts,
        TxnView::begun(read_ts, serializable).serializable == serializable,
        TxnView::begun(read_ts, serializable).value_of(k, stored) == stored,
        !TxnView::begun(read_ts, serializable).local.dom().contains(k),
        TxnView::begun(read_ts, serializable).writes.len() == 0,
        TxnView::begun(read_ts, serializable).reads.len() == 0,
        TxnView::begun(read_ts, serializable).obstacle(v) is None,
{
}

/// A commit is refused as a conflict exactly if the transaction is serializable and some transaction
/// that committed after its read time, and that is still remembered, wrote a key that it read. What
/// the transaction itself wrote is no matter.
pub proof fn lemma_conflict_exactly(t: TxnView, v: MvccView)
    requires
        !t.committed,
    ensures
        t.obstacle(v) is Some ==> t.obstacle(v) == Some(TxnError::Conflict),
        t.obstacle(v) is Some <==> t.serializable && exists|ts: u64, h: u32| #[trigger]
            v.committed.dom().contains(ts) && ts > t.read_ts && #[trigger] t.reads.contains(h)
                && v.committed[ts].hashes.contains(h),
{
    if t.obstacle(v) is Some {
        let ts = choose|ts: u64| #[trigger]
            v.committed.dom().contains(ts) && ts > t.read_ts && mvcc::intersects(
                v.committed[ts].hashes,
                t.reads,
            );
        let h = choose|h: u32| #[trigger]
            v.committed[ts].hashes.contains(h) && t.reads.contains(h);
        assert(v.committed.dom().contains(ts) && t.reads.contains(h));
    }
    if t.serializable && exists|ts: u64, h: u32| #[trigger]
        v.committed.dom().contains(ts) && ts > t.read_ts && #[trigger] t.reads.contains(h)
            && v.committed[ts].hashes.contains(h) {
        let (ts, h) = choose|ts: u64, h: u32| #[trigger]
            v.committed.dom().contains(ts) && ts > t.read_ts && #[trigger] t.reads.contains(h)
                && v.committed[ts].hashes.contains(h);
        assert(mvcc::intersects(v.committed[ts].hashes, t.reads));
    }
}

/// What is remembered of a serializable transaction that wrote something: all the keys that it wrote,
/// under its commit time. Commits of the watermark's time or later stay as they were, older ones are
/// forgotten. Any other transaction leaves no trace.
pub proof fn lemma_recorded_exactly(t: TxnView, v: MvccView, commit_ts: u64, ts: u64)
    ensures
        t.serializable && (exists|h: u32| #[trigger] t.writes.contains(h)) ==> {
            let after = t.recorded(v, commit_ts).committed;
            &&& after.dom().contains(ts) <==> ts >= v.watermark() && (ts == commit_ts
                || v.committed.dom().contains(ts))
            &&& ts != commit_ts && after.dom().contains(ts) ==> after[ts] == v.committed[ts]
            &&& after.dom().contains(commit_ts) ==> {
                &&& after[commit_ts].hashes == t.writes
                &&& after[commit_ts].commit_ts == commit_ts
                &&& after[commit_ts].read_ts == t.read_ts
            }
        },
        !(t.serializable && exists|h: u32| #[trigger] t.writes.contains(h)) ==> t.recorded(
            v,
            commit_ts,
        ) == v,
        t.recorded(v, commit_ts).latest == v.latest,
        t.recorded(v, commit_ts).readers == v.readers,
{
    assert(t.writes =~= Set::<u32>::empty() <==> !(exists|h: u32| #[trigger]
        t.writes.contains(h)));
}

/// A key that a serializable transaction reads, and that another one writes and commits later, has
/// the reader's commit refused, whatever the reader had read or written before the read and whatever
/// the writer had before the write. The reader is counted among the readers until it is released.
pub proof fn lemma_read_then_conflict(
    reader: TxnView,
    writer: TxnView,
    v: MvccView,
    commit_ts: u64,
    k: Seq<u8>,
    value: Seq<u8>,
)
    requires
        reader.serializable,
        !reader.committed,
        v.readers.dom().contains(reader.read_ts),
        writer.serializable,
        !writer.committed,
        commit_ts > reader.read_ts,
    ensures
        reader.having_read(k).obstacle(writer.having_written(k, value).recorded(v, commit_ts))
            == Some(TxnError::Conflict),
{
    lemma_read_remembered(reader, k);
    lemma_write_remembered(writer, k, value);
    mvcc::lemma_watermark_low(v, reader.read_ts);
    lemma_write_refuses_reader(
        writer.having_written(k, value),
        reader.having_read(k),
        v,
        commit_ts,
        k,
    );
}

/// The same for a scan: coming to a key that another transaction writes and commits later has the
/// scanning transaction's commit refused.
pub proof fn lemma_scan_then_conflict(
    reader: TxnView,
    s: Stream,
    writer: TxnView,
    v: MvccView,
    commit_ts: u64,
    value: Seq<u8>,
)
    requires
        reader.serializable,
        !reader.committed,
        s.entries.len() > 0,
        v.readers.dom().contains(reader.read_ts),
        writer.serializable,
        !writer.committed,
        commit_ts > reader.read_ts,
    ensures
        having_come_to(reader, s).obstacle(
            writer.having_written(s.entries[0].key.key, value).recorded(v, commit_ts),
        ) == Some(TxnError::Conflict),
{
    let k = s.entries[0].key.key;
    lemma_scan_remembered(reader, s);
    lemma_write_remembered(writer, k, value);
    mvcc::lemma_watermark_low(v, reader.read_ts);
    lemma_write_refuses_reader(
        writer.having_written(k, value),
        having_come_to(reader, s),
        v,
        commit_ts,
        k,
    );
}

/// A commit stores the buffer, each key once: what was put is put with its last value, what was
/// deleted is deleted, and no other key is touched.
pub proof fn lemma_batch(batch: Seq<WriteBatchRecord>, local: Map<Seq<u8>, Seq<u8>>, k: Seq<u8>)
    requires
        batch_of(batch, local),
    ensures
        local.dom().contains(k) && local[k].len() > 0 ==> exists|i: int|
            0 <= i < batch.len() && (#[trigger] batch[i] matches WriteBatchRecord::Put(x, v) && x@
                == k && v@ == local[k]),
        local.dom().contains(k) && local[k].len() == 0 ==> exists|i: int|
            0 <= i < batch.len() && (#[trigger] batch[i] matches WriteBatchRecord::Del(x) && x@
                == k),
        forall|i: int|
            0 <= i < batch.len() ==> match #[trigger] batch[i] {
                WriteBatchRecord::Put(x, v) => local.dom().contains(x@) && local[x@] == v@ && v@.len()
                    > 0,
                WriteBatchRecord::Del(x) => local.dom().contains(x@) && local[x@].len() == 0,
            },
        forall|i: int, j: int|
            0 <= i < j < batch.len() ==> (#[trigger] batch[i]).target() != (
            #[trigger] batch[j]).target(),
{
    assert forall|i: int, j: int| 0 <= i < j < batch.len() implies (#[trigger] batch[i]).target()
        != (#[trigger] batch[j]).target() by {
        key::lemma_bytes_lt_irreflexive(batch[i].target());
    }
    if local.dom().contains(k) {
        let i = choose|i: int| 0 <= i < batch.len() && (#[trigger] batch[i]).target() == k;
        assert(batch[i].writes(local[k]));
    }
}

/// A transaction. It buffers its writes until it is committed.
pub struct Transaction {
    read_ts: u64,
    local_storage: SkipMap<(Vec<u8>, u64), Vec<u8>>,
    committed: bool,
    /// The write set and the read set.
    key_hashes: Option<(HashSet<u32>, HashSet<u32>)>,
}

/// The buffered writes in a skip list.
spec fn local_of(m: Map<(Seq<u8>, u64), Seq<u8>>) -> Map<Seq<u8>, Seq<u8>> {
    Map::new(|k: Seq<u8>| m.dom().contains((k, 0u64)), |k: Seq<u8>| m[(k, 0u64)])
}

impl View for Transaction {
    type V = TxnView;

    closed spec fn view(&self) -> TxnView {
        TxnView {
            read_ts: self.read_ts,
            local: local_of(skiplist::contents(self.local_storage)),
            committed: self.committed,
            serializable: self.key_hashes is Some,
            writes: match self.key_hashes {
                Some(h) => h.0@,
                None => Set::empty(),
            },
            reads: match self.key_hashes {
                Some(h) => h.1@,
                None => Set::empty(),
            },
        }
    }
}

proof fn lemma_local_insert(m: Map<(Seq<u8>, u64), Seq<u8>>, k: Seq<u8>, value: Seq<u8>)
    ensures
        local_of(m.insert((k, 0u64), value)) == local_of(m).insert(k, value),
{
    assert(local_of(m.insert((k, 0u64), value)) =~= local_of(m).insert(k, value));
}

impl Transaction {
    /// The buffer holds one version of a key. The keys in the buffer of a serializable transaction
    /// can be hashed, and its write set has their hashes.
    pub closed spec fn wf(&self) -> bool {
        &&& forall|k: (Seq<u8>, u64)| #[trigger]
            skiplist::contents(self.local_storage).dom().contains(k) ==> k.1 == 0
        &&& self@.serializable ==> forall|k: Seq<u8>| #[trigger]
            self@.local.dom().contains(k) ==> hash::hashable(k) && self@.writes.contains(
            hash::fingerprint32_of(k),
        )
    }

    /// The write set of a serializable transaction has the hashes of all keys that it wrote, and
    /// these can be hashed.
    pub proof fn lemma_write_set(&self, k: Seq<u8>)
        requires
            self.wf(),
            self@.serializable,
            self@.local.dom().contains(k),
        ensures
            hash::hashable(k),
            self@.writes.contains(hash::fingerprint32_of(k)),
    {
    }

    /// A transaction that reads at `read_ts`.
    pub(crate) fn begin(read_ts: u64, serializable: bool) -> (r: Self)
        ensures
            r.wf(),
            r@ == TxnView::begun(read_ts, serializable),
    {
        let key_hashes: Option<(HashSet<u32>, HashSet<u32>)> = if serializable {
            Some((HashSet::new(), HashSet::new()))
        } else {
            None
        };
        let r = Transaction {
            read_ts,
            local_storage: skiplist::new_skip_map(),
            committed: false,
            key_hashes,
        };
        assert(r@.local =~= Map::empty());
        assert(r@ =~= TxnView::begun(read_ts, serializable));
        r
    }

    /// The time that the transaction reads.
    pub fn read_ts(&self) -> (r: u64)
        ensures
            r == self@.read_ts,
    {
        self.read_ts
    }

    /// Remembers that a key was read.
    fn note_read(&mut self, key: &[u8])
        requires
            old(self).wf(),
            old(self)@.can_note(key@),
        ensures
            final(self).wf(),
            final(self)@ == old(self)@.having_read(key@),
    {
        broadcast use vstd::std_specs::hash::group_hash_axioms;

        if let Some(mut sets) = self.key_hashes.take() {
            sets.1.insert(hash::fingerprint32(key));
            self.key_hashes = Some(sets);
        }
        assert(self@ =~= old(self)@.having_read(key@));
    }

    /// Reads a key from the buffer. Where the buffer has no write of the key, the answer is left to
    /// the storage at the time that the transaction reads.
    pub fn get_local(&mut self, key: &[u8]) -> (r: Option<Option<Vec<u8>>>)
        requires
            old(self).wf(),
            old(self)@.can_note(key@),
        ensures
            final(self).wf(),
            final(self)@ == old(self)@.having_read(key@),
            match r {
                None => !old(self)@.local.dom().contains(key@),
                Some(None) => old(self)@.local.dom().contains(key@) && old(self)@.local[key@].len()
                    == 0,
                Some(Some(v)) => old(self)@.local.dom().contains(key@) && old(self)@.local[key@]
                    == v@ && v@.len() > 0,
            },
    {
        self.note_read(key);
        let k: (Vec<u8>, u64) = (key::copy_bytes(key), 0);
        match skiplist::skip_get(&self.local_storage, &k) {
            None => None,
            Some(v) => {
                if v.len() == 0 {
                    Some(None)
                } else {
                    Some(Some(v))
                }
            },
        }
    }

    /// Reads a key. The value that is stored at the time that the transaction reads counts only
    /// where the transaction did not write the key itself.
    pub fn get(&mut self, key: &[u8], stored: Option<Vec<u8>>) -> (r: Option<Vec<u8>>)
        requires
            old(self).wf(),
            old(self)@.can_note(key@),
        ensures
            final(self).wf(),
            final(self)@ == old(self)@.having_read(key@),
            match r {
                Some(v) => old(self)@.value_of(
                    key@,
                    match stored {
                        Some(s) => Some(s@),
                        None => None,
                    },
                ) == Some(v@),
                None => old(self)@.value_of(
                    key@,
                    match stored {
                        Some(s) => Some(s@),
                        None => None,
                    },
                ) is None,
            },
    {
        match self.get_local(key) {
            Some(v) => v,
            None => stored,
        }
    }

    /// Writes a value into the buffer, unless the transaction was committed.
    fn write(&mut self, key: &[u8], value: Vec<u8>)
        requires
            old(self).wf(),
            !old(self)@.committed ==> old(self)@.can_note(key@),
        ensures
            final(self).wf(),
            final(self)@ == old(self)@.having_written(key@, value@),
    {
        broadcast use vstd::std_specs::hash::group_hash_axioms;

        if self.committed {
            return;
        }
        proof {
            lemma_local_insert(skiplist::contents(self.local_storage), key@, value@);
        }
        skiplist::skip_insert(&mut self.local_storage, (key::copy_bytes(key), 0), value);
        if let Some(mut sets) = self.key_hashes.take() {
            sets.0.insert(hash::fingerprint32(key));
            self.key_hashes = Some(sets);
        }
        assert(self@ =~= old(self)@.having_written(key@, value@));
    }

    /// Writes a value. Once the transaction was committed nothing is written.
    pub fn put(&mut self, key: &[u8], value: &[u8])
        requires
            old(self).wf(),
            !old(self)@.committed ==> old(self)@.can_note(key@),
        ensures
            final(self).wf(),
            final(self)@ == old(self)@.having_written(key@, value@),
    {
        self.write(key, key::copy_bytes(value));
    }

    /// Deletes a key. Once the transaction was committed nothing is deleted.
    pub fn delete(&mut self, key: &[u8])
        requires
            old(self).wf(),
            !old(self)@.committed ==> old(self)@.can_note(key@),
        ensures
            final(self).wf(),
            final(self)@ == old(self)@.having_written(key@, Seq::empty()),
    {
        let empty: Vec<u8> = Vec::new();
        assert(empty@ =~= Seq::empty());
        self.write(key, empty);
    }

    /// Begins to read a range of keys. The entries that are stored at the time that the transaction
    /// reads are merged with the writes of the transaction, and its writes take precedence. The key
    /// that the scan comes to is not remembered as read yet.
    pub fn open_scan<I: StorageIterator>(&self, lower: &Bound, upper: &Bound, stored: I) -> (r: Result<
        TxnIterator<I>,
        StorageError,
    >)
        requires
            self.wf(),
            stored.wf(),
        ensures
            exists|s: Stream| #[trigger]
                local_stream(s, self@.local, *lower, *upper) && scan_opened(r, s, stored, *upper),
    {
        let local = TxnLocalIterator::create(self, lower, upper);
        assert(local_stream(local.stream(), self@.local, *lower, *upper));
        TxnIterator::open(TwoMergeIterator::create(local, stored))
    }

    /// Reads a range of keys. The entries that are stored at the time that the transaction reads
    /// are merged with the writes of the transaction, and its writes take precedence.
    pub fn scan<I: StorageIterator>(
        &mut self,
        lower: &Bound,
        upper: &Bound,
        stored: I,
    ) -> (r: Result<TxnIterator<I>, StorageError>)
        requires
            old(self).wf(),
            stored.wf(),
            forall|s: Stream| #[trigger]
                local_stream(s, old(self)@.local, *lower, *upper) ==> can_come_to(
                    old(self)@,
                    live_view(merge_iterator::merged(seq![s, stored.stream()])),
                ),
        ensures
            final(self).wf(),
            exists|s: Stream| #[trigger]
                local_stream(s, old(self)@.local, *lower, *upper) && scan_opened(
                    r,
                    s,
                    stored,
                    *upper,
                ),
            final(self)@ == match r {
                Ok(it) => having_come_to(old(self)@, it.stream()),
                Err(_) => old(self)@,
            },
    {
        match self.open_scan(lower, upper, stored) {
            Ok(it) => {
                it.note(self);
                Ok(it)
            },
            Err(e) => Err(e),
        }
    }

    /// Commits the transaction: checks that it can be committed and hands out the writes that are to
    /// be stored. Once they are, `record_commit` has to be called with their commit time. There is
    /// nothing to store where the transaction wrote nothing, but it is checked all the same.
    pub fn commit(&mut self, mvcc: &LsmMvccInner) -> (r: Result<Vec<WriteBatchRecord>, TxnError>)
        requires
            old(self).wf(),
        ensures
            final(self).wf(),
            final(self)@ == (TxnView { committed: true, ..old(self)@ }),
            match r {
                Ok(batch) => old(self)@.obstacle(mvcc@) is None && batch_of(
                    batch@,
                    old(self)@.local,
                ),
                Err(e) => old(self)@.obstacle(mvcc@) == Some(e),
            },
    {
        if self.committed {
            return Err(TxnError::AlreadyCommitted);
        }
        self.committed = true;
        match &self.key_hashes {
            Some(sets) => {
                if mvcc.has_conflict(self.read_ts, &sets.1) {
                    return Err(TxnError::Conflict);
                }
            },
            None => {},
        }
        let items: Vec<((Vec<u8>, u64), Vec<u8>)> = skiplist::skip_items(&self.local_storage);
        let ghost m = skiplist::contents(self.local_storage);
        let ghost local = self@.local;
        let mut batch: Vec<WriteBatchRecord> = Vec::new();
        let mut i: usize = 0;
        while i < items.len()
            invariant
                i <= items@.len(),
                batch@.len() == i,
                forall|j: int|
                    0 <= j < i ==> (#[trigger] batch@[j]).target() == items@[j].0.0@
                        && batch@[j].writes(items@[j].1@),
            decreases items@.len() - i,
        {
            let k: Vec<u8> = key::copy_bytes(items[i].0.0.as_slice());
            let v: Vec<u8> = key::copy_bytes(items[i].1.as_slice());
            if v.len() == 0 {
                batch.push(WriteBatchRecord::Del(k));
            } else {
                batch.push(WriteBatchRecord::Put(k, v));
            }
            i += 1;
        }
        proof {
            assert forall|a: int, b: int| 0 <= a < b < batch@.len() implies key::bytes_lt(
                (#[trigger] batch@[a]).target(),
                (#[trigger] batch@[b]).target(),
            ) by {
                assert(skiplist::item_lt(
                    skiplist::item_key(items@[a]),
                    skiplist::item_key(items@[b]),
                ));
                assert(m.dom().contains(skiplist::item_key(items@[a])));
                assert(m.dom().contains(skiplist::item_key(items@[b])));
            }
            assert forall|a: int| 0 <= a < batch@.len() implies local.dom().contains(
                (#[trigger] batch@[a]).target(),
            ) && batch@[a].writes(local[batch@[a].target()]) by {
                let k = skiplist::item_key(items@[a]);
                assert(m.dom().contains(k));
                assert(k == (batch@[a].target(), 0u64));
            }
            assert forall|k: Seq<u8>| #[trigger] local.dom().contains(k) implies exists|a: int|
                0 <= a < batch@.len() && (#[trigger] batch@[a]).target() == k by {
                assert(m.dom().contains((k, 0u64)));
                let a = choose|a: int|
                    0 <= a < items@.len() && skiplist::item_key(#[trigger] items@[a]) == (k, 0u64);
                assert(batch@[a].target() == k);
            }
            assert(batch_of(batch@, local));
        }
        Ok(batch)
    }

    /// Notes that the writes of the transaction were stored at `commit_ts`, so that other
    /// transactions are checked against them.
    pub fn record_commit(&self, mvcc: &mut LsmMvccInner, commit_ts: u64)
        requires
            self.wf(),
            old(mvcc).wf(),
        ensures
            final(mvcc).wf(),
            final(mvcc)@ == self@.recorded(old(mvcc)@, commit_ts),
    {
        match &self.key_hashes {
            Some(sets) => {
                let (write_set, any): (HashSet<u32>, bool) = mvcc::copy_set(&sets.0);
                if any {
                    mvcc.record_commit(
                        CommittedTxnData { key_hashes: write_set, read_ts: self.read_ts, commit_ts },
                    );
                }
            },
            None => {},
        }
    }

    /// Ends the transaction, so that the time that it read is no longer kept on its account.
    pub fn release(self, mvcc: &mut LsmMvccInner)
        requires
            old(mvcc).wf(),
            old(mvcc)@.readers.dom().contains(self@.read_ts),
        ensures
            final(mvcc).wf(),
            final(mvcc)@ == (MvccView {
                readers: watermark::reader_removed(old(mvcc)@.readers, self@.read_ts),
                ..old(mvcc)@
            }),
    {
        mvcc.remove_reader(self.read_ts);
    }
}

/// The entry of an item.
spec fn entry_at(item: ((Vec<u8>, u64), Vec<u8>)) -> Entry {
    Entry { key: Key { key: item.0.0@, ts: TS_DEFAULT }, value: item.1@ }
}

/// The entries are the writes of a buffer in a range, in key order.
pub open spec fn local_entries(
    es: Seq<Entry>,
    local: Map<Seq<u8>, Seq<u8>>,
    lower: Bound,
    upper: Bound,
) -> bool {
    &&& key::sorted(es)
    &&& forall|i: int|
        0 <= i < es.len() ==> {
            let k = (#[trigger] es[i]).key.key;
            &&& es[i].key.ts == TS_DEFAULT
            &&& local.dom().contains(k)
            &&& local[k] == es[i].value
            &&& lower.allows(k)
            &&& upper.admits(k)
        }
    &&& forall|k: Seq<u8>| #[trigger]
        local.dom().contains(k) && lower.allows(k) && upper.admits(k) ==> exists|i: int|
            0 <= i < es.len() && (#[trigger] es[i]).key.key == k
}

/// What the writes of a buffer in a range contribute to a scan. A write of the empty key, which
/// stands for the end of the buffer, hides them.
pub open spec fn local_stream(
    s: Stream,
    local: Map<Seq<u8>, Seq<u8>>,
    lower: Bound,
    upper: Bound,
) -> bool {
    let empty = Seq::<u8>::empty();
    if local.dom().contains(empty) && lower.allows(empty) && upper.admits(empty) {
        s == Stream::ended()
    } else {
        s.fault is None && local_entries(s.entries, local, lower, upper)
    }
}

/// A bound on the keys of the buffer.
fn item_bound(b: &Bound) -> (r: ItemBound)
    ensures
        forall|k: Seq<u8>| #[trigger] skiplist::from_bound(r, (k, 0u64)) == b.allows(k),
        forall|k: Seq<u8>| #[trigger] skiplist::to_bound(r, (k, 0u64)) == b.admits(k),
{
    match b {
        Bound::Included(k) => {
            let r = ItemBound::Included((key::copy_bytes(k.as_slice()), 0));
            proof {
                assert forall|x: Seq<u8>| #[trigger]
                    skiplist::from_bound(r, (x, 0u64)) == b.allows(x) by {
                    lemma_not_before(k@, x);
                }
                assert forall|x: Seq<u8>| #[trigger]
                    skiplist::to_bound(r, (x, 0u64)) == b.admits(x) by {
                    lemma_not_before(x, k@);
                }
            }
            r
        },
        Bound::Excluded(k) => ItemBound::Excluded((key::copy_bytes(k.as_slice()), 0)),
        Bound::Unbounded => ItemBound::Unbounded,
    }
}

proof fn lemma_not_before(a: Seq<u8>, b: Seq<u8>)
    ensures
        !key::bytes_lt(b, a) == key::bytes_le(a, b),
{
    key::lemma_bytes_lt_total(a, b);
    key::lemma_bytes_lt_irreflexive(a);
    if key::bytes_lt(a, b) {
        key::lemma_bytes_lt_asymmetric(a, b);
    }
}

/// The keys up to the end of a range.
pub open spec fn keys_up_to(upper: Bound) -> Set<Seq<u8>> {
    Set::new(|k: Seq<u8>| upper.admits(k))
}

/// A copy of a bound.
fn copy_bound(b: &Bound) -> (r: Bound)
    ensures
        keys_up_to(r) == keys_up_to(*b),
{
    let r = match b {
        Bound::Included(k) => Bound::Included(key::copy_bytes(k.as_slice())),
        Bound::Excluded(k) => Bound::Excluded(key::copy_bytes(k.as_slice())),
        Bound::Unbounded => Bound::Unbounded,
    };
    assert(keys_up_to(r) =~= keys_up_to(*b));
    r
}

/// The entries are the writes of a buffer behind the key `k` and up to the end of a range, in key
/// order.
pub open spec fn entries_behind(
    es: Seq<Entry>,
    local: Map<Seq<u8>, Seq<u8>>,
    k: Seq<u8>,
    reach: Set<Seq<u8>>,
) -> bool {
    &&& key::sorted(es)
    &&& forall|i: int|
        0 <= i < es.len() ==> {
            let x = (#[trigger] es[i]).key.key;
            &&& es[i].key.ts == TS_DEFAULT
            &&& local.dom().contains(x)
            &&& local[x] == es[i].value
            &&& key::bytes_lt(k, x)
            &&& reach.contains(x)
        }
    &&& forall|x: Seq<u8>| #[trigger]
        local.dom().contains(x) && key::bytes_lt(k, x) && reach.contains(x) ==> exists|i: int|
            0 <= i < es.len() && (#[trigger] es[i]).key.key == x
}

/// What is left of the writes of a buffer when an iterator that had `before` left moves on. The
/// entry that it stands on is as it was, and behind it are the writes that the buffer has now. An
/// iterator that has nothing left stays so.
pub open spec fn refreshed(
    before: Stream,
    after: Stream,
    local: Map<Seq<u8>, Seq<u8>>,
    reach: Set<Seq<u8>>,
) -> bool {
    if before.entries.len() == 0 {
        after == before
    } else {
        &&& after.fault is None
        &&& after.entries.len() > 0
        &&& after.entries[0] == before.entries[0]
        &&& entries_behind(after.entries.skip(1), local, before.entries[0].key.key, reach)
    }
}

/// The items are the writes of a buffer in a range of the skip list, in key order.
spec fn items_in(
    items: Seq<((Vec<u8>, u64), Vec<u8>)>,
    local: Map<Seq<u8>, Seq<u8>>,
    lower: ItemBound,
    upper: ItemBound,
) -> bool {
    &&& forall|i: int, j: int|
        0 <= i < j < items.len() ==> key::bytes_lt(
            (#[trigger] items[i]).0.0@,
            (#[trigger] items[j]).0.0@,
        )
    &&& forall|i: int|
        0 <= i < items.len() ==> {
            let k = (#[trigger] items[i]).0.0@;
            &&& local.dom().contains(k)
            &&& local[k] == items[i].1@
            &&& skiplist::from_bound(lower, (k, 0u64))
            &&& skiplist::to_bound(upper, (k, 0u64))
        }
    &&& forall|k: Seq<u8>| #[trigger]
        local.dom().contains(k) && skiplist::from_bound(lower, (k, 0u64)) && skiplist::to_bound(
            upper,
            (k, 0u64),
        ) ==> exists|i: int| 0 <= i < items.len() && (#[trigger] items[i]).0.0@ == k
}

/// Looks up the writes of a transaction in a range.
fn local_items(txn: &Transaction, lower: ItemBound, upper: ItemBound) -> (r: Vec<
    ((Vec<u8>, u64), Vec<u8>),
>)
    requires
        txn.wf(),
    ensures
        items_in(r@, txn@.local, lower, upper),
{
    let ghost m = skiplist::contents(txn.local_storage);
    let ghost local = txn@.local;
    let items: Vec<((Vec<u8>, u64), Vec<u8>)> = skiplist::skip_range(
        &txn.local_storage,
        lower,
        upper,
    );
    proof {
        assert forall|i: int| 0 <= i < items@.len() implies {
            let k = (#[trigger] items@[i]).0.0@;
            &&& items@[i].0.1 == 0
            &&& local.dom().contains(k)
            &&& local[k] == items@[i].1@
            &&& skiplist::from_bound(lower, (k, 0u64))
            &&& skiplist::to_bound(upper, (k, 0u64))
        } by {
            assert(m.dom().contains(skiplist::item_key(items@[i])));
        }
        assert forall|k: Seq<u8>| #[trigger] local.dom().contains(k) && skiplist::from_bound(
            lower,
            (k, 0u64),
        ) && skiplist::to_bound(upper, (k, 0u64)) implies exists|i: int|
            0 <= i < items@.len() && (#[trigger] items@[i]).0.0@ == k by {
            assert(m.dom().contains((k, 0u64)));
            let i = choose|i: int|
                0 <= i < items@.len() && skiplist::item_key(#[trigger] items@[i]) == (k, 0u64);
            assert(items@[i].0.0@ == k);
        }
        assert forall|i: int, j: int| 0 <= i < j < items@.len() implies key::bytes_lt(
            (#[trigger] items@[i]).0.0@,
            (#[trigger] items@[j]).0.0@,
        ) by {
            assert(skiplist::item_lt(
                skiplist::item_key(items@[i]),
                skiplist::item_key(items@[j]),
            ));
        }
    }
    items
}

/// Iterates over the writes of a transaction in a range.
pub struct TxnLocalIterator {
    items: Vec<((Vec<u8>, u64), Vec<u8>)>,
    pos: usize,
    upper: Bound,
}

impl TxnLocalIterator {
    /// The keys up to the end of the range.
    pub closed spec fn reach(&self) -> Set<Seq<u8>> {
        keys_up_to(self.upper)
    }

    /// Creates an iterator on the first write in the range.
    pub fn create(txn: &Transaction, lower: &Bound, upper: &Bound) -> (r: Self)
        requires
            txn.wf(),
        ensures
            r.wf(),
            local_stream(r.stream(), txn@.local, *lower, *upper),
            r.reach() == keys_up_to(*upper),
    {
        let lo = item_bound(lower);
        let hi = item_bound(upper);
        let ghost local = txn@.local;
        let ghost glo = lo;
        let ghost ghi = hi;
        let items: Vec<((Vec<u8>, u64), Vec<u8>)> = local_items(txn, lo, hi);
        let end = copy_bound(upper);
        proof {
            assert forall|i: int| 0 <= i < items@.len() implies {
                let k = (#[trigger] items@[i]).0.0@;
                lower.allows(k) && upper.admits(k)
            } by {
                let k = items@[i].0.0@;
                assert(skiplist::from_bound(glo, (k, 0u64)) && skiplist::to_bound(ghi, (k, 0u64)));
            }
            assert forall|k: Seq<u8>| #[trigger] local.dom().contains(k) && lower.allows(k)
                && upper.admits(k) implies exists|i: int|
                0 <= i < items@.len() && (#[trigger] items@[i]).0.0@ == k by {
                assert(skiplist::from_bound(glo, (k, 0u64)) && skiplist::to_bound(ghi, (k, 0u64)));
            }
        }
        let ghost empty = Seq::<u8>::empty();
        if items.len() > 0 && items[0].0.0.len() == 0 {
            assert(items@[0].0.0@ =~= empty);
            let pos: usize = items.len();
            let r = TxnLocalIterator { items, pos, upper: end };
            assert(r.stream().entries =~= Seq::empty());
            return r;
        }
        let r = TxnLocalIterator { items, pos: 0, upper: end };
        proof {
            let es = r.stream().entries;
            assert forall|i: int| 0 <= i < es.len() implies #[trigger] es[i] == entry_at(
                items@[i],
            ) by {}
            assert(key::sorted(es)) by {
                assert forall|i: int, j: int| 0 <= i < j < es.len() implies key::key_lt(
                    #[trigger] es[i].key,
                    #[trigger] es[j].key,
                ) by {
                    assert(es[i] == entry_at(items@[i]) && es[j] == entry_at(items@[j]));
                }
            }
            assert forall|k: Seq<u8>| #[trigger] local.dom().contains(k) && lower.allows(k)
                && upper.admits(k) implies exists|i: int|
                0 <= i < es.len() && (#[trigger] es[i]).key.key == k by {
                let i = choose|i: int| 0 <= i < items@.len() && (#[trigger] items@[i]).0.0@ == k;
                assert(es[i].key.key == k);
            }
            assert(!(local.dom().contains(empty) && lower.allows(empty) && upper.admits(
                empty,
            ))) by {
                if local.dom().contains(empty) && lower.allows(empty) && upper.admits(empty) {
                    let i = choose|i: int|
                        0 <= i < items@.len() && (#[trigger] items@[i]).0.0@ == empty;
                    if i > 0 {
                        assert(key::bytes_lt(items@[0].0.0@, items@[i].0.0@));
                    }
                }
            }
        }
        r
    }

    /// The iterator on the same write with the writes behind it that the transaction has now.
    fn refresh(&self, txn: &Transaction, upper: &Bound) -> (r: Self)
        requires
            self.wf(),
            txn.wf(),
        ensures
            r.wf(),
            refreshed(self.stream(), r.stream(), txn@.local, keys_up_to(*upper)),
    {
        let end = copy_bound(upper);
        if self.pos >= self.items.len() {
            let r = TxnLocalIterator { items: Vec::new(), pos: 0, upper: end };
            assert(r.stream() =~= self.stream());
            return r;
        }
        let ghost local = txn@.local;
        let ghost k = self.items@[self.pos as int].0.0@;
        let here: Vec<u8> = key::copy_bytes(self.items[self.pos].0.0.as_slice());
        let value: Vec<u8> = key::copy_bytes(self.items[self.pos].1.as_slice());
        let lo = ItemBound::Excluded((key::copy_bytes(self.items[self.pos].0.0.as_slice()), 0));
        let hi = item_bound(upper);
        let ghost glo = lo;
        let ghost ghi = hi;
        let mut behind: Vec<((Vec<u8>, u64), Vec<u8>)> = local_items(txn, lo, hi);
        let ghost found = behind@;
        let mut items: Vec<((Vec<u8>, u64), Vec<u8>)> = Vec::new();
        items.push(((here, 0), value));
        items.append(&mut behind);
        let r = TxnLocalIterator { items, pos: 0, upper: end };
        proof {
            let es = r.stream().entries;
            let more = es.skip(1);
            assert forall|i: int| 0 <= i < more.len() implies #[trigger] more[i] == entry_at(
                found[i],
            ) by {
                assert(r.items@[i + 1] == found[i]);
            }
            assert(es[0] == self.stream().entries[0]);
            assert forall|i: int, j: int| 0 <= i < j < more.len() implies key::key_lt(
                #[trigger] more[i].key,
                #[trigger] more[j].key,
            ) by {
                assert(more[i] == entry_at(found[i]) && more[j] == entry_at(found[j]));
            }
            assert forall|i: int| 0 <= i < more.len() implies {
                let x = (#[trigger] more[i]).key.key;
                &&& more[i].key.ts == TS_DEFAULT
                &&& local.dom().contains(x)
                &&& local[x] == more[i].value
                &&& key::bytes_lt(k, x)
                &&& keys_up_to(*upper).contains(x)
            } by {
                assert(more[i] == entry_at(found[i]));
                let x = found[i].0.0@;
                assert(skiplist::from_bound(glo, (x, 0u64)) && skiplist::to_bound(ghi, (x, 0u64)));
            }
            assert forall|x: Seq<u8>| #[trigger] local.dom().contains(x) && key::bytes_lt(k, x)
                && keys_up_to(*upper).contains(x) implies exists|i: int|
                0 <= i < more.len() && (#[trigger] more[i]).key.key == x by {
                assert(skiplist::from_bound(glo, (x, 0u64)) && skiplist::to_bound(ghi, (x, 0u64)));
                let i = choose|i: int| 0 <= i < found.len() && (#[trigger] found[i]).0.0@ == x;
                assert(more[i] == entry_at(found[i]));
            }
        }
        r
    }
}

impl StorageIterator for TxnLocalIterator {
    closed spec fn wf(&self) -> bool {
        self.pos <= self.items@.len()
    }

    closed spec fn stream(&self) -> Stream {
        Stream {
            entries: Seq::new(
                (self.items@.len() - self.pos) as nat,
                |i: int| entry_at(self.items@[self.pos + i]),
            ),
            fault: None,
        }
    }

    open spec fn tolerant(&self) -> bool {
        true
    }

    open spec fn active_after(&self, n: nat) -> nat {
        1
    }

    proof fn lemma_stream_wf(&self) {
    }

    fn is_valid(&self) -> (r: bool) {
        self.pos < self.items.len()
    }

    fn key(&self) -> (r: KeySlice<'_>) {
        KeySlice::from_slice(self.items[self.pos].0.0.as_slice(), TS_DEFAULT)
    }

    fn value(&self) -> (r: &[u8]) {
        self.items[self.pos].1.as_slice()
    }

    fn next(&mut self) -> (r: Result<(), StorageError>)
        ensures
            r == Ok::<(), StorageError>(()),
            old(self).stream().entries.len() == 0 ==> *final(self) == *old(self),
    {
        if self.pos < self.items.len() {
            self.pos += 1;
            assert(self.stream() =~= old(self).stream().rest());
        }
        Ok(())
    }

    fn num_active_iterators(&self) -> (r: usize) {
        1
    }
}

/// The stream without the entries that have empty values.
pub open spec fn live_view(s: Stream) -> Stream
    decreases s.entries.len(),
{
    if s.entries.len() == 0 {
        s
    } else {
        let rest = Stream { entries: s.entries.skip(1), fault: s.fault };
        if s.entries[0].value.len() == 0 {
            live_view(rest)
        } else {
            live_view(rest).after(seq![s.entries[0]])
        }
    }
}

/// The transaction after an iterator of its came to the start of a stream.
pub open spec fn having_come_to(t: TxnView, s: Stream) -> TxnView {
    if s.entries.len() > 0 {
        t.having_read(s.entries[0].key.key)
    } else {
        t
    }
}

/// The number of deleted keys that a stream begins with.
pub open spec fn deleted_ahead(s: Stream) -> nat
    decreases s.entries.len(),
{
    if s.entries.len() == 0 || s.entries[0].value.len() > 0 {
        0
    } else {
        1 + deleted_ahead(s.rest())
    }
}

/// The start of a stream can be remembered as read.
pub open spec fn can_come_to(t: TxnView, s: Stream) -> bool {
    s.entries.len() > 0 ==> t.can_note(s.entries[0].key.key)
}

/// What is behind the first entry of a stream can be remembered as read.
pub open spec fn can_move_on(t: TxnView, s: Stream) -> bool {
    s.entries.len() > 0 ==> can_come_to(t, s.rest())
}

/// Leaving out deleted keys keeps the rest of a sorted stream.
proof fn lemma_live_view(s: Stream)
    requires
        merge_iterator::sound_stream(s),
    ensures
        merge_iterator::sound_stream(live_view(s)),
        forall|x: Entry| #[trigger]
            live_view(s).entries.contains(x) <==> s.entries.contains(x) && x.value.len() > 0,
    decreases s.entries.len(),
{
    let v = live_view(s).entries;
    if s.entries.len() > 0 {
        let e = s.entries[0];
        let rest = Stream { entries: s.entries.skip(1), fault: s.fault };
        assert forall|i: int, j: int| 0 <= i < j < rest.entries.len() implies key::key_lt(
            #[trigger] rest.entries[i].key,
            #[trigger] rest.entries[j].key,
        ) by {
            assert(rest.entries[i] == s.entries[i + 1] && rest.entries[j] == s.entries[j + 1]);
        }
        lemma_live_view(rest);
        let w = live_view(rest).entries;
        assert(s.entries =~= seq![e] + rest.entries);
        if e.value.len() > 0 {
            assert(v == seq![e] + w);
            assert forall|i: int, j: int| 0 <= i < j < v.len() implies key::key_lt(
                #[trigger] v[i].key,
                #[trigger] v[j].key,
            ) by {
                assert(v[j] == w[j - 1]);
                if i > 0 {
                    assert(v[i] == w[i - 1]);
                } else {
                    assert(w.contains(w[j - 1]));
                    let h = choose|h: int| 0 <= h < rest.entries.len() && rest.entries[h] == w[j - 1];
                    assert(s.entries[h + 1] == w[j - 1]);
                }
            }
        }
        assert forall|x: Entry| #[trigger] v.contains(x) <==> s.entries.contains(x) && x.value.len()
            > 0 by {
            lemma_first_or_rest(e, rest.entries, x);
            lemma_first_or_rest(e, w, x);
        }
    }
}

proof fn lemma_first_or_rest(e: Entry, rest: Seq<Entry>, x: Entry)
    ensures
        (seq![e] + rest).contains(x) <==> x == e || rest.contains(x),
{
    let all = seq![e] + rest;
    if all.contains(x) {
        let i = choose|i: int| 0 <= i < all.len() && all[i] == x;
        if i > 0 {
            assert(rest[i - 1] == x);
        }
    }
    if x == e {
        assert(all[0] == x);
    }
    if rest.contains(x) {
        let i = choose|i: int| 0 <= i < rest.len() && rest[i] == x;
        assert(all[i + 1] == x);
    }
}

/// A scan of a transaction over sorted entries hands out, in key order, the values that the
/// transaction wrote, and the stored entries of the keys that it did not write. Keys that it
/// deleted are left out.
pub proof fn lemma_txn_scan(local: Stream, stored: Stream)
    requires
        merge_iterator::sound_stream(local),
        merge_iterator::sound_stream(stored),
    ensures
        ({
            let v = live_view(merge_iterator::merged(seq![local, stored]));
            &&& merge_iterator::sound_stream(v)
            &&& forall|x: Entry| #[trigger]
                v.entries.contains(x) <==> x.value.len() > 0 && (local.entries.contains(x) || (
                stored.entries.contains(x) && !merge_iterator::has_key(local, x.key)))
        }),
{
    let ss = seq![local, stored];
    assert forall|i: int| 0 <= i < ss.len() implies #[trigger] merge_iterator::sound_stream(
        ss[i],
    ) by {}
    merge_iterator::lemma_merged_sound(ss);
    let m = merge_iterator::merged(ss);
    lemma_live_view(m);
    assert forall|x: Entry| #[trigger] m.entries.contains(x) <==> local.entries.contains(x) || (
    stored.entries.contains(x) && !merge_iterator::has_key(local, x.key)) by {
        if m.entries.contains(x) {
            let i = choose|i: int| merge_iterator::first_with(ss, x, i);
            if i == 1 {
                assert(!merge_iterator::has_key(ss[0], x.key));
            }
        }
        if local.entries.contains(x) {
            assert(merge_iterator::first_with(ss, x, 0));
        }
        if stored.entries.contains(x) && !merge_iterator::has_key(local, x.key) {
            assert(merge_iterator::first_with(ss, x, 1));
        }
    }
    let v = live_view(m);
    assert forall|x: Entry| #[trigger] v.entries.contains(x) <==> x.value.len() > 0 && (
    local.entries.contains(x) || (stored.entries.contains(x) && !merge_iterator::has_key(
        local,
        x.key,
    ))) by {}
}

/// Two streams after the entries with empty values that they begin with when merged.
pub open spec fn settled(ss: Seq<Stream>) -> Seq<Stream>
    decreases merge_iterator::total(ss),
{
    let m = merge_iterator::merged(ss);
    if m.entries.len() == 0 || m.entries[0].value.len() > 0 {
        ss
    } else {
        proof {
            two_merge_iterator::lemma_moved(ss);
        }
        settled(two_merge_iterator::moved(ss))
    }
}

/// The keys of the streams can be hashed where hashes are kept.
pub open spec fn can_note_all(t: TxnView, ss: Seq<Stream>) -> bool {
    t.serializable ==> forall|i: int|
        0 <= i < ss.len() ==> hash::hashable_keys((#[trigger] ss[i]).entries)
}

/// Moving on leaves keys that can be hashed.
proof fn lemma_moved_hashable(t: TxnView, ss: Seq<Stream>)
    requires
        can_note_all(t, ss),
    ensures
        can_note_all(t, two_merge_iterator::moved(ss)),
{
    let ms = two_merge_iterator::moved(ss);
    let l = merge_iterator::lead(ss);
    if t.serializable && l >= 0 {
        let k = ss[l].entries[0].key;
        if merge_iterator::move_fault(ss, k) is None {
            assert forall|i: int| 0 <= i < ms.len() implies hash::hashable_keys(
                (#[trigger] ms[i]).entries,
            ) by {
                let off: int = if merge_iterator::begins_with(ss[i], k) {
                    1
                } else {
                    0
                };
                assert(hash::hashable_keys(ss[i].entries));
                assert forall|j: int| 0 <= j < ms[i].entries.len() implies hash::hashable(
                    (#[trigger] ms[i].entries[j]).key.key,
                ) by {
                    assert(ms[i].entries[j] == ss[i].entries[j + off]);
                }
            }
        }
    }
}

/// Merging and leaving out deleted keys leaves keys that can be hashed.
proof fn lemma_merged_hashable(t: TxnView, ss: Seq<Stream>)
    requires
        can_note_all(t, ss),
        t.serializable,
    ensures
        hash::hashable_keys(merge_iterator::merged(ss).entries),
    decreases merge_iterator::total(ss),
{
    let m = merge_iterator::merged(ss);
    merge_iterator::lemma_lead(ss);
    merge_iterator::lemma_merged_wf(ss);
    if m.entries.len() > 0 {
        let l = merge_iterator::lead(ss);
        assert(hash::hashable_keys(ss[l].entries));
        assert(m.entries[0] == ss[l].entries[0]);
        lemma_moved_hashable(t, ss);
        two_merge_iterator::lemma_moved(ss);
        lemma_merged_hashable(t, two_merge_iterator::moved(ss));
        assert forall|i: int| 0 <= i < m.entries.len() implies hash::hashable(
            (#[trigger] m.entries[i]).key.key,
        ) by {
            if i > 0 {
                assert(m.rest().entries[i - 1] == m.entries[i]);
            }
        }
    }
}

proof fn lemma_live_hashable(s: Stream)
    requires
        hash::hashable_keys(s.entries),
    ensures
        hash::hashable_keys(live_view(s).entries),
    decreases s.entries.len(),
{
    if s.entries.len() > 0 {
        let rest = Stream { entries: s.entries.skip(1), fault: s.fault };
        assert forall|i: int| 0 <= i < rest.entries.len() implies hash::hashable(
            (#[trigger] rest.entries[i]).key.key,
        ) by {
            assert(rest.entries[i] == s.entries[i + 1]);
        }
        lemma_live_hashable(rest);
        let v = live_view(s).entries;
        let w = live_view(rest).entries;
        if s.entries[0].value.len() > 0 {
            assert forall|i: int| 0 <= i < v.len() implies hash::hashable(
                (#[trigger] v[i]).key.key,
            ) by {
                if i > 0 {
                    assert(v[i] == w[i - 1]);
                }
            }
        }
    }
}

proof fn lemma_settled_hashable(t: TxnView, ss: Seq<Stream>)
    requires
        can_note_all(t, ss),
    ensures
        can_note_all(t, settled(ss)),
    decreases merge_iterator::total(ss),
{
    let m = merge_iterator::merged(ss);
    if m.entries.len() > 0 && m.entries[0].value.len() == 0 {
        two_merge_iterator::lemma_moved(ss);
        lemma_moved_hashable(t, ss);
        lemma_settled_hashable(t, two_merge_iterator::moved(ss));
    }
}

/// A scan that skips the deleted keys in front comes to a key that is not deleted, and what it shows
/// from there on is what it would have shown from the start.
pub proof fn lemma_settled(ss: Seq<Stream>)
    ensures
        ({
            let m = merge_iterator::merged(settled(ss));
            &&& m.entries.len() > 0 ==> m.entries[0].value.len() > 0
            &&& live_view(merge_iterator::merged(ss)).landed() matches Ok(v) ==> live_view(m) == v
        }),
    decreases merge_iterator::total(ss),
{
    let m = merge_iterator::merged(ss);
    if m.entries.len() > 0 && m.entries[0].value.len() == 0 {
        two_merge_iterator::lemma_moved(ss);
        lemma_settled(two_merge_iterator::moved(ss));
        let rest = Stream { entries: m.entries.skip(1), fault: m.fault };
        if m.at_fault() {
            assert(rest.entries.len() == 0);
            assert(live_view(rest) == rest);
            assert(live_view(m) == live_view(rest));
        } else {
            assert(m.rest() == rest);
        }
    } else {
        merge_iterator::lemma_merged_wf(ss);
    }
}

/// The deleted keys in front are those up to the first key that is not deleted.
pub proof fn lemma_deleted_ahead(s: Stream)
    ensures
        deleted_ahead(s) <= s.entries.len(),
        forall|i: int|
            0 <= i < deleted_ahead(s) ==> (#[trigger] s.entries[i]).value.len() == 0,
        deleted_ahead(s) < s.entries.len() ==> s.entries[deleted_ahead(s) as int].value.len() > 0,
    decreases s.entries.len(),
{
    if s.entries.len() > 0 && s.entries[0].value.len() == 0 {
        let rest = s.rest();
        lemma_deleted_ahead(rest);
        assert(rest.entries =~= s.entries.skip(1));
        assert forall|i: int| 0 <= i < deleted_ahead(s) implies (#[trigger] s.entries[i]).value.len()
            == 0 by {
            if i > 0 {
                assert(rest.entries[i - 1] == s.entries[i]);
            }
        }
    }
}

/// A scan over stored keys that can be hashed can begin, and so can what it has left.
pub proof fn lemma_can_scan(txn: &Transaction, lower: Bound, upper: Bound, stored: Stream)
    requires
        txn.wf(),
        can_note_all(txn@, seq![stored]),
    ensures
        forall|s: Stream| #[trigger]
            local_stream(s, txn@.local, lower, upper) ==> {
                let ss = seq![s, stored];
                can_come_to(txn@, live_view(merge_iterator::merged(ss))) && can_note_all(
                    txn@,
                    settled(ss),
                )
            },
{
    assert(seq![stored][0] == stored);
    assert forall|s: Stream| #[trigger] local_stream(s, txn@.local, lower, upper) implies {
        let ss = seq![s, stored];
        can_come_to(txn@, live_view(merge_iterator::merged(ss))) && can_note_all(txn@, settled(ss))
    } by {
        let ss = seq![s, stored];
        if txn@.serializable {
            assert forall|i: int| 0 <= i < s.entries.len() implies hash::hashable(
                (#[trigger] s.entries[i]).key.key,
            ) by {
                assert(txn@.local.dom().contains(s.entries[i].key.key));
            }
            assert(can_note_all(txn@, ss));
            lemma_merged_hashable(txn@, ss);
            lemma_live_hashable(merge_iterator::merged(ss));
        }
        lemma_settled_hashable(txn@, ss);
    }
}

/// A scan that has only keys left that can be hashed can move on, and has only such keys left then.
pub proof fn lemma_can_move(txn: &Transaction, parts: Seq<Stream>, reach: Set<Seq<u8>>)
    requires
        txn.wf(),
        parts.len() == 2,
        can_note_all(txn@, parts),
    ensures
        forall|s: Stream| #[trigger]
            refreshed(parts[0], s, txn@.local, reach) ==> {
                let now = seq![s, parts[1]];
                can_move_on(txn@, live_view(merge_iterator::merged(now))) && can_note_all(
                    txn@,
                    settled(two_merge_iterator::moved(now)),
                )
            },
{
    assert forall|s: Stream| #[trigger] refreshed(parts[0], s, txn@.local, reach) implies {
        let now = seq![s, parts[1]];
        can_move_on(txn@, live_view(merge_iterator::merged(now))) && can_note_all(
            txn@,
            settled(two_merge_iterator::moved(now)),
        )
    } by {
        let now = seq![s, parts[1]];
        if txn@.serializable {
            assert(hash::hashable_keys(parts[0].entries));
            assert(hash::hashable_keys(parts[1].entries));
            assert forall|i: int| 0 <= i < s.entries.len() implies hash::hashable(
                (#[trigger] s.entries[i]).key.key,
            ) by {
                if i > 0 {
                    assert(s.entries.skip(1)[i - 1] == s.entries[i]);
                    assert(txn@.local.dom().contains(s.entries[i].key.key));
                }
            }
            assert(can_note_all(txn@, now));
            lemma_merged_hashable(txn@, now);
            let v = live_view(merge_iterator::merged(now));
            lemma_live_hashable(merge_iterator::merged(now));
            if v.entries.len() > 0 && v.rest().entries.len() > 0 {
                assert(v.rest().entries[0] == v.entries[1]);
            }
        }
        lemma_moved_hashable(txn@, now);
        lemma_settled_hashable(txn@, two_merge_iterator::moved(now));
    }
}

/// A stream of writes that holds all writes behind its first one in the range is what is left when
/// an iterator moves on.
pub proof fn lemma_local_refreshed(
    s: Stream,
    local: Map<Seq<u8>, Seq<u8>>,
    lower: Bound,
    upper: Bound,
)
    requires
        local_stream(s, local, lower, upper),
    ensures
        refreshed(s, s, local, keys_up_to(upper)),
{
    if s.entries.len() > 0 {
        let es = s.entries;
        let k = es[0].key.key;
        let more = es.skip(1);
        let reach = keys_up_to(upper);
        assert forall|i: int, j: int| 0 <= i < j < more.len() implies key::key_lt(
            #[trigger] more[i].key,
            #[trigger] more[j].key,
        ) by {
            assert(more[i] == es[i + 1] && more[j] == es[j + 1]);
        }
        assert forall|i: int| 0 <= i < more.len() implies {
            let x = (#[trigger] more[i]).key.key;
            &&& more[i].key.ts == TS_DEFAULT
            &&& local.dom().contains(x)
            &&& local[x] == more[i].value
            &&& key::bytes_lt(k, x)
            &&& reach.contains(x)
        } by {
            assert(more[i] == es[i + 1]);
            assert(key::key_lt(es[0].key, es[i + 1].key));
        }
        assert forall|x: Seq<u8>| #[trigger] local.dom().contains(x) && key::bytes_lt(k, x)
            && reach.contains(x) implies exists|i: int|
            0 <= i < more.len() && (#[trigger] more[i]).key.key == x by {
            assert(lower.allows(k));
            lemma_allowed_behind(lower, k, x);
            let i = choose|i: int| 0 <= i < es.len() && (#[trigger] es[i]).key.key == x;
            key::lemma_bytes_lt_irreflexive(k);
            assert(more[i - 1] == es[i]);
        }
    }
}

proof fn lemma_allowed_behind(lower: Bound, a: Seq<u8>, b: Seq<u8>)
    requires
        lower.allows(a),
        key::bytes_lt(a, b),
    ensures
        lower.allows(b),
{
    match lower {
        Bound::Included(k) => {
            if k@ != a {
                key::lemma_bytes_lt_transitive(k@, a, b);
            }
        },
        Bound::Excluded(k) => {
            key::lemma_bytes_lt_transitive(k@, a, b);
        },
        Bound::Unbounded => {},
    }
}

/// What is left when an iterator moves on is determined by the writes.
pub proof fn lemma_refreshed_once(
    before: Stream,
    a: Stream,
    b: Stream,
    local: Map<Seq<u8>, Seq<u8>>,
    reach: Set<Seq<u8>>,
)
    requires
        refreshed(before, a, local, reach),
        refreshed(before, b, local, reach),
    ensures
        a == b,
{
    if before.entries.len() > 0 {
        let k = before.entries[0].key.key;
        let p = a.entries.skip(1);
        let q = b.entries.skip(1);
        lemma_same_behind(p, q, local, k, reach);
        assert(a.entries =~= seq![a.entries[0]] + p);
        assert(b.entries =~= seq![b.entries[0]] + q);
    }
}

/// Sorted entries with the same members are the same.
proof fn lemma_same_behind(
    p: Seq<Entry>,
    q: Seq<Entry>,
    local: Map<Seq<u8>, Seq<u8>>,
    k: Seq<u8>,
    reach: Set<Seq<u8>>,
)
    requires
        entries_behind(p, local, k, reach),
        entries_behind(q, local, k, reach),
    ensures
        p == q,
    decreases p.len() + q.len(),
{
    if p.len() > 0 || q.len() > 0 {
        lemma_first_behind(p, q, local, k, reach);
        lemma_first_behind(q, p, local, k, reach);
        let x = p[0].key.key;
        let y = q[0].key.key;
        if x != y {
            key::lemma_bytes_lt_asymmetric(x, y);
        }
        lemma_rest_behind(p, local, k, reach);
        lemma_rest_behind(q, local, k, reach);
        lemma_same_behind(p.skip(1), q.skip(1), local, x, reach);
        assert(p =~= seq![p[0]] + p.skip(1));
        assert(q =~= seq![q[0]] + q.skip(1));
    }
}

/// No other list of the same writes begins earlier.
proof fn lemma_first_behind(
    p: Seq<Entry>,
    q: Seq<Entry>,
    local: Map<Seq<u8>, Seq<u8>>,
    k: Seq<u8>,
    reach: Set<Seq<u8>>,
)
    requires
        entries_behind(p, local, k, reach),
        entries_behind(q, local, k, reach),
    ensures
        p.len() > 0 ==> q.len() > 0 && key::bytes_le(q[0].key.key, p[0].key.key),
{
    if p.len() > 0 {
        let x = p[0].key.key;
        assert(local.dom().contains(x));
        let i = choose|i: int| 0 <= i < q.len() && (#[trigger] q[i]).key.key == x;
        if i > 0 {
            assert(key::key_lt(q[0].key, q[i].key));
        }
    }
}

/// What is behind the first of the writes behind a key.
proof fn lemma_rest_behind(
    p: Seq<Entry>,
    local: Map<Seq<u8>, Seq<u8>>,
    k: Seq<u8>,
    reach: Set<Seq<u8>>,
)
    requires
        entries_behind(p, local, k, reach),
        p.len() > 0,
    ensures
        entries_behind(p.skip(1), local, p[0].key.key, reach),
{
    let x = p[0].key.key;
    let more = p.skip(1);
    assert forall|i: int, j: int| 0 <= i < j < more.len() implies key::key_lt(
        #[trigger] more[i].key,
        #[trigger] more[j].key,
    ) by {
        assert(more[i] == p[i + 1] && more[j] == p[j + 1]);
    }
    assert forall|i: int| 0 <= i < more.len() implies {
        let y = (#[trigger] more[i]).key.key;
        &&& more[i].key.ts == TS_DEFAULT
        &&& local.dom().contains(y)
        &&& local[y] == more[i].value
        &&& key::bytes_lt(x, y)
        &&& reach.contains(y)
    } by {
        assert(more[i] == p[i + 1]);
        assert(key::key_lt(p[0].key, p[i + 1].key));
    }
    assert forall|y: Seq<u8>| #[trigger] local.dom().contains(y) && key::bytes_lt(x, y)
        && reach.contains(y) implies exists|i: int|
        0 <= i < more.len() && (#[trigger] more[i]).key.key == y by {
        key::lemma_bytes_lt_transitive(k, x, y);
        let i = choose|i: int| 0 <= i < p.len() && (#[trigger] p[i]).key.key == y;
        key::lemma_bytes_lt_irreflexive(x);
        assert(more[i - 1] == p[i]);
    }
}

/// While the transaction writes nothing, what is left of its writes stays what it was when the
/// iterator moves on.
pub proof fn lemma_refreshed_rest(
    s: Stream,
    local: Map<Seq<u8>, Seq<u8>>,
    reach: Set<Seq<u8>>,
)
    requires
        s.entries.len() > 0,
        refreshed(s, s, local, reach),
    ensures
        refreshed(s.rest(), s.rest(), local, reach),
{
    let more = s.entries.skip(1);
    if more.len() > 0 {
        lemma_rest_behind(more, local, s.entries[0].key.key, reach);
    }
}

/// What a scan shows of the buffer: exactly the buffered keys within the bounds, each with what was
/// last written to it. A buffered empty key within the bounds ends the scan of the buffer at once.
pub proof fn lemma_local_scan(
    s: Stream,
    local: Map<Seq<u8>, Seq<u8>>,
    lower: Bound,
    upper: Bound,
    k: Seq<u8>,
    value: Seq<u8>,
)
    requires
        local_stream(s, local, lower, upper),
    ensures
        s.fault is None,
        key::sorted(s.entries),
        local.dom().contains(Seq::empty()) && lower.allows(Seq::empty()) && upper.admits(
            Seq::empty(),
        ) ==> s.entries.len() == 0,
        !(local.dom().contains(Seq::empty()) && lower.allows(Seq::empty()) && upper.admits(
            Seq::empty(),
        )) ==> (s.entries.contains(Entry { key: Key { key: k, ts: 0 }, value }) <==> {
            &&& local.dom().contains(k)
            &&& local[k] == value
            &&& match lower {
                Bound::Included(b) => !key::bytes_lt(k, b@),
                Bound::Excluded(b) => key::bytes_lt(b@, k),
                Bound::Unbounded => true,
            }
            &&& match upper {
                Bound::Included(b) => !key::bytes_lt(b@, k),
                Bound::Excluded(b) => key::bytes_lt(k, b@),
                Bound::Unbounded => true,
            }
        }),
{
    lsm_iterator::lemma_bounds(lower, k);
    lsm_iterator::lemma_bounds(upper, k);
    let e = Entry { key: Key { key: k, ts: 0 }, value };
    let es = s.entries;
    if es.contains(e) {
        let i = choose|i: int| 0 <= i < es.len() && es[i] == e;
        assert(es[i].key.key == k);
    }
    if !(local.dom().contains(Seq::empty()) && lower.allows(Seq::empty()) && upper.admits(
        Seq::empty(),
    )) && local.dom().contains(k) && local[k] == value && lower.allows(k) && upper.admits(k) {
        let i = choose|i: int| 0 <= i < es.len() && (#[trigger] es[i]).key.key == k;
        assert(es[i] =~= e);
    }
}

/// A scan that moves on sees the buffer as it is now: behind the entry that it stands on, exactly the
/// buffered keys behind that entry and within its reach, each with what was last written to it.
pub proof fn lemma_refreshed_exactly(
    before: Stream,
    after: Stream,
    local: Map<Seq<u8>, Seq<u8>>,
    reach: Set<Seq<u8>>,
    k: Seq<u8>,
    value: Seq<u8>,
)
    requires
        refreshed(before, after, local, reach),
    ensures
        before.entries.len() == 0 ==> after == before,
        before.entries.len() > 0 ==> {
            let behind = after.entries.skip(1);
            &&& after.fault is None
            &&& after.entries.len() > 0
            &&& after.entries[0] == before.entries[0]
            &&& key::sorted(behind)
            &&& behind.contains(Entry { key: Key { key: k, ts: 0 }, value })
                <==> local.dom().contains(k) && local[k] == value && key::bytes_lt(
                before.entries[0].key.key,
                k,
            ) && reach.contains(k)
        },
{
    if before.entries.len() > 0 {
        let e = Entry { key: Key { key: k, ts: 0 }, value };
        let es = after.entries.skip(1);
        if es.contains(e) {
            let i = choose|i: int| 0 <= i < es.len() && es[i] == e;
            assert(es[i].key.key == k);
        }
        if local.dom().contains(k) && local[k] == value && key::bytes_lt(
            before.entries[0].key.key,
            k,
        ) && reach.contains(k) {
            let i = choose|i: int| 0 <= i < es.len() && (#[trigger] es[i]).key.key == k;
            assert(es[i] =~= e);
        }
    }
}

/// A scan passes over the deleted keys, and over nothing else; an error behind them stays.
pub proof fn lemma_live_exactly(s: Stream)
    ensures
        live_view(s).entries == s.entries.filter(|e: Entry| e.value.len() > 0),
        live_view(s).fault == s.fault,
    decreases s.entries.len(),
{
    let live = |e: Entry| e.value.len() > 0;
    reveal(Seq::filter);
    if s.entries.len() > 0 {
        let rest = s.entries.skip(1);
        lemma_live_exactly(Stream { entries: rest, fault: s.fault });
        let first = seq![s.entries[0]];
        assert(s.entries =~= first + rest);
        Seq::filter_distributes_over_add(first, rest, live);
        let none = first.drop_last();
        assert(none =~= Seq::empty());
        assert(none.filter(live) =~= Seq::empty());
        assert(none.filter(live).push(s.entries[0]) =~= first);
        assert(first.filter(live) == if live(first.last()) {
            none.filter(live).push(first.last())
        } else {
            none.filter(live)
        });
        assert(Seq::<Entry>::empty() + rest.filter(live) =~= rest.filter(live));
    }
}

/// The keys within the reach of a scan are those that its upper bound lets through.
pub proof fn lemma_keys_up_to(upper: Bound, k: Seq<u8>)
    ensures
        keys_up_to(upper).contains(k) <==> match upper {
            Bound::Included(b) => !key::bytes_lt(b@, k),
            Bound::Excluded(b) => key::bytes_lt(k, b@),
            Bound::Unbounded => true,
        },
{
    lsm_iterator::lemma_bounds(upper, k);
}

/// Iterates over what a transaction sees. Writes that the transaction makes meanwhile are seen
/// where they are behind the last of its writes that the iterator has come to.
pub struct TxnIterator<I: StorageIterator> {
    iter: TwoMergeIterator<TxnLocalIterator, I>,
    upper: Bound,
}

impl<I: StorageIterator> TxnIterator<I> {
    /// The iterator is not on a deleted key.
    pub closed spec fn wf(&self) -> bool {
        &&& self.iter.wf()
        &&& self.iter.stream().entries.len() > 0 ==> self.iter.stream().entries[0].value.len() > 0
    }

    /// What is left of the writes of the transaction and of what is stored. Nothing counts once a
    /// move has failed.
    pub closed spec fn parts(&self) -> Seq<Stream> {
        self.iter.parts()
    }

    /// The keys up to the end of the range.
    pub closed spec fn reach(&self) -> Set<Seq<u8>> {
        keys_up_to(self.upper)
    }

    /// What is left if the transaction writes nothing more.
    pub open spec fn stream(&self) -> Stream {
        live_view(merge_iterator::merged(self.parts()))
    }

    /// The number of iterators under what is stored, after the next `m` moves of it.
    pub closed spec fn stored_after(&self, m: nat) -> nat {
        self.iter.second().active_after(m)
    }

    /// The number of underlying iterators: one over the writes, and those under what is stored.
    pub open spec fn active(&self) -> nat {
        1 + self.stored_after(0)
    }

    /// Creates an iterator on the first entry that is not deleted. The key there is not remembered
    /// as read yet.
    pub fn open(iter: TwoMergeIterator<TxnLocalIterator, I>) -> (r: Result<Self, StorageError>)
        requires
            iter.wf(),
        ensures
            opened(r, iter),
    {
        let upper = copy_bound(&iter.first_iter().upper);
        let mut it = TxnIterator { iter, upper };
        proof {
            it.iter.lemma_parts();
        }
        match it.skip_deleted() {
            Ok(()) => Ok(it),
            Err(e) => Err(e),
        }
    }

    /// Creates an iterator on the first entry that is not deleted, and remembers that its key was
    /// read.
    pub fn create(
        txn: &mut Transaction,
        iter: TwoMergeIterator<TxnLocalIterator, I>,
    ) -> (r: Result<Self, StorageError>)
        requires
            old(txn).wf(),
            iter.wf(),
            can_come_to(old(txn)@, live_view(iter.stream())),
        ensures
            final(txn).wf(),
            opened(r, iter),
            final(txn)@ == match r {
                Ok(it) => having_come_to(old(txn)@, it.stream()),
                Err(_) => old(txn)@,
            },
    {
        match Self::open(iter) {
            Ok(it) => {
                it.note(txn);
                Ok(it)
            },
            Err(e) => Err(e),
        }
    }

    /// Remembers that the key of the current entry, if there is one, was read.
    pub fn note(&self, txn: &mut Transaction)
        requires
            self.wf(),
            old(txn).wf(),
            can_come_to(old(txn)@, self.stream()),
        ensures
            final(txn).wf(),
            final(txn)@ == having_come_to(old(txn)@, self.stream()),
    {
        if self.is_valid() {
            txn.note_read(self.key());
        }
    }

    /// Moves on to an entry that is not deleted.
    fn skip_deleted(&mut self) -> (r: Result<(), StorageError>)
        requires
            old(self).iter.wf(),
        ensures
            final(self).wf(),
            final(self).upper == old(self).upper,
            final(self).parts() == settled(old(self).parts()),
            forall|m: nat| #[trigger]
                final(self).stored_after(m) == old(self).stored_after(
                    m + merge_iterator::moves_of(
                        old(self).parts(),
                        1,
                        deleted_ahead(merge_iterator::merged(old(self).parts())),
                    ),
                ),
            match old(self).stream().landed() {
                Ok(s) => r == Ok::<(), StorageError>(()) && final(self).stream() == s,
                Err(e) => r == Err::<(), StorageError>(e) && final(self).stream()
                    == Stream::ended(),
            },
    {
        let ghost goal = self.stream();
        let ghost end = settled(self.parts());
        let ghost all = merge_iterator::moves_of(
            self.parts(),
            1,
            deleted_ahead(merge_iterator::merged(self.parts())),
        );
        proof {
            self.iter.lemma_parts();
        }
        while self.iter.is_valid() && self.iter.value().len() == 0
            invariant
                self.iter.wf(),
                self.iter.stream() == merge_iterator::merged(self.parts()),
                self.upper == old(self).upper,
                goal == self.stream(),
                goal == old(self).stream(),
                end == settled(self.parts()),
                end == settled(old(self).parts()),
                all == merge_iterator::moves_of(
                    old(self).parts(),
                    1,
                    deleted_ahead(merge_iterator::merged(old(self).parts())),
                ),
                ({
                    let left = merge_iterator::moves_of(
                        self.parts(),
                        1,
                        deleted_ahead(merge_iterator::merged(self.parts())),
                    );
                    &&& left <= all
                    &&& forall|m: nat| #[trigger]
                        self.stored_after(m) == old(self).stored_after(m + (all - left) as nat)
                }),
            decreases self.iter.stream().entries.len(),
        {
            let ghost was = self.parts();
            let ghost mid = *self;
            let ghost step = merge_iterator::moves_of(was, 1, 1);
            let ghost gone = (all - merge_iterator::moves_of(
                was,
                1,
                deleted_ahead(merge_iterator::merged(was)),
            )) as nat;
            proof {
                reveal_with_fuel(live_view, 2);
                let m = merge_iterator::merged(was);
                merge_iterator::lemma_merged_wf(was);
                two_merge_iterator::lemma_moved(was);
                two_merge_iterator::lemma_moves_step(was, 1, deleted_ahead(m.rest()));
            }
            match self.iter.next() {
                Ok(()) => {},
                Err(e) => {
                    proof {
                        self.iter.lemma_parts();
                        assert(settled(was) == settled(self.parts()));
                        assert forall|m: nat| #[trigger] self.stored_after(m) == old(
                            self,
                        ).stored_after(m + all) by {
                            assert(self.stored_after(m) == mid.stored_after(m + step));
                            assert(mid.stored_after(m + step) == old(self).stored_after(
                                m + step + gone,
                            ));
                        }
                    }
                    return Err(e);
                },
            }
            proof {
                self.iter.lemma_parts();
                assert forall|m: nat| #[trigger] self.stored_after(m) == old(self).stored_after(
                    m + step + gone,
                ) by {
                    assert(self.stored_after(m) == mid.stored_after(m + step));
                    assert(mid.stored_after(m + step) == old(self).stored_after(m + step + gone));
                }
            }
        }
        proof {
            self.iter.lemma_stream_wf();
        }
        Ok(())
    }

    /// Whether the iterator is on an entry.
    pub fn is_valid(&self) -> (r: bool)
        requires
            self.wf(),
        ensures
            r == (self.stream().entries.len() > 0),
    {
        proof {
            self.iter.lemma_parts();
        }
        self.iter.is_valid()
    }

    /// The key of the current entry.
    pub fn key(&self) -> (r: &[u8])
        requires
            self.wf(),
            self.stream().entries.len() > 0,
        ensures
            r@ == self.stream().entries[0].key.key,
    {
        proof {
            self.iter.lemma_parts();
        }
        self.iter.key().key_ref()
    }

    /// The value of the current entry.
    pub fn value(&self) -> (r: &[u8])
        requires
            self.wf(),
            self.stream().entries.len() > 0,
        ensures
            r@ == self.stream().entries[0].value,
    {
        proof {
            self.iter.lemma_parts();
        }
        self.iter.value()
    }

    /// Moves to the next entry that is not deleted. The key there is not remembered as read yet.
    pub fn advance(&mut self, txn: &Transaction) -> (r: Result<(), StorageError>)
        requires
            old(self).wf(),
            old(self).stream().entries.len() > 0,
            txn.wf(),
        ensures
            final(self).wf(),
            final(self).reach() == old(self).reach(),
            exists|s: Stream| #[trigger]
                refreshed(old(self).parts()[0], s, txn@.local, old(self).reach()) && advanced(
                    *old(self),
                    *final(self),
                    r,
                    seq![s, old(self).parts()[1]],
                ),
    {
        proof {
            self.iter.lemma_parts();
        }
        let local = self.iter.first_iter().refresh(txn, &self.upper);
        let ghost s = local.stream();
        let ghost now = seq![s, self.parts()[1]];
        assert(refreshed(self.parts()[0], s, txn@.local, self.reach()));
        proof {
            lemma_same_lead(self.parts(), now);
        }
        self.iter.replace_first(local);
        let ghost m = merge_iterator::merged(now);
        proof {
            self.iter.lemma_parts();
            reveal_with_fuel(live_view, 2);
            merge_iterator::lemma_merged_wf(now);
            two_merge_iterator::lemma_moved(now);
            two_merge_iterator::lemma_moves_step(now, 1, deleted_ahead(m.rest()));
        }
        match self.iter.next() {
            Ok(()) => {},
            Err(e) => {
                proof {
                    self.iter.lemma_parts();
                    assert(advanced(*old(self), *self, Err(e), now));
                }
                return Err(e);
            },
        }
        proof {
            self.iter.lemma_parts();
            let tail = live_view(self.iter.stream());
            assert(tail.after(seq![m.entries[0]]).entries.skip(1) =~= tail.entries);
        }
        let r = self.skip_deleted();
        assert(advanced(*old(self), *self, r, now));
        r
    }

    /// Moves to the next entry that is not deleted, and remembers that its key was read.
    pub fn next(&mut self, txn: &mut Transaction) -> (r: Result<(), StorageError>)
        requires
            old(self).wf(),
            old(self).stream().entries.len() > 0,
            old(txn).wf(),
            forall|s: Stream| #[trigger]
                refreshed(old(self).parts()[0], s, old(txn)@.local, old(self).reach())
                    ==> can_move_on(
                    old(txn)@,
                    live_view(merge_iterator::merged(seq![s, old(self).parts()[1]])),
                ),
        ensures
            final(self).wf(),
            final(self).reach() == old(self).reach(),
            final(txn).wf(),
            exists|s: Stream| #[trigger]
                refreshed(old(self).parts()[0], s, old(txn)@.local, old(self).reach()) && advanced(
                    *old(self),
                    *final(self),
                    r,
                    seq![s, old(self).parts()[1]],
                ),
            final(txn)@ == if r is Ok {
                having_come_to(old(txn)@, final(self).stream())
            } else {
                old(txn)@
            },
    {
        let ghost before = *self;
        match self.advance(txn) {
            Ok(()) => {
                proof {
                    let s = choose|s: Stream| #[trigger]
                        refreshed(before.parts()[0], s, txn@.local, before.reach()) && advanced(
                            before,
                            *self,
                            Ok(()),
                            seq![s, before.parts()[1]],
                        );
                    assert(can_move_on(
                        txn@,
                        live_view(merge_iterator::merged(seq![s, before.parts()[1]])),
                    ));
                }
                self.note(txn);
                Ok(())
            },
            Err(e) => Err(e),
        }
    }

    /// The number of underlying iterators.
    pub fn num_active_iterators(&self) -> (r: usize)
        requires
            self.wf(),
            self.active() <= usize::MAX,
        ensures
            r == self.active(),
    {
        proof {
            self.iter.lemma_active(0);
        }
        self.iter.num_active_iterators()
    }
}

/// An iterator was created over two iterators.
pub open spec fn opened<I: StorageIterator>(
    r: Result<TxnIterator<I>, StorageError>,
    iter: TwoMergeIterator<TxnLocalIterator, I>,
) -> bool {
    match live_view(iter.stream()).landed() {
        Ok(v) => {
            &&& r matches Ok(it)
            &&& it.wf()
            &&& it.stream() == v
            &&& it.parts() == settled(iter.parts())
            &&& it.reach() == iter.first().reach()
            &&& forall|m: nat| #[trigger]
                it.stored_after(m) == iter.second().active_after(
                    m + merge_iterator::moves_of(iter.parts(), 1, deleted_ahead(iter.stream())),
                )
        },
        Err(e) => r == Err::<TxnIterator<I>, StorageError>(e),
    }
}

/// A scan was begun over writes that hand out `s` and over what is stored.
pub open spec fn scan_opened<I: StorageIterator>(
    r: Result<TxnIterator<I>, StorageError>,
    s: Stream,
    stored: I,
    upper: Bound,
) -> bool {
    let ss = seq![s, stored.stream()];
    let all = merge_iterator::merged(ss);
    match live_view(all).landed() {
        Ok(v) => {
            &&& r matches Ok(it)
            &&& it.wf()
            &&& it.stream() == v
            &&& it.parts() == settled(ss)
            &&& it.reach() == keys_up_to(upper)
            &&& forall|m: nat| #[trigger]
                it.stored_after(m) == stored.active_after(
                    m + merge_iterator::moves_of(ss, 1, deleted_ahead(all)),
                )
        },
        Err(e) => r == Err::<TxnIterator<I>, StorageError>(e),
    }
}

/// An iterator that had `now` left moved on.
pub open spec fn advanced<I: StorageIterator>(
    before: TxnIterator<I>,
    after: TxnIterator<I>,
    r: Result<(), StorageError>,
    now: Seq<Stream>,
) -> bool {
    let all = merge_iterator::merged(now);
    let v = live_view(all);
    &&& v.entries.len() > 0
    &&& r == v.step()
    &&& after.stream() == v.rest()
    &&& after.parts() == settled(two_merge_iterator::moved(now))
    &&& forall|m: nat| #[trigger]
        after.stored_after(m) == before.stored_after(
            m + merge_iterator::moves_of(now, 1, 1 + deleted_ahead(all.rest())),
        )
}

/// Streams that begin with the same entries begin with the same entry when merged.
proof fn lemma_same_lead(a: Seq<Stream>, b: Seq<Stream>)
    requires
        a.len() == 2,
        b.len() == 2,
        a[0].entries.len() > 0 <==> b[0].entries.len() > 0,
        a[0].entries.len() > 0 ==> a[0].entries[0] == b[0].entries[0],
        a[1] == b[1],
    ensures
        merge_iterator::merged(a).entries.len() > 0 <==> merge_iterator::merged(b).entries.len()
            > 0,
        merge_iterator::merged(a).entries.len() > 0 ==> merge_iterator::merged(a).entries[0]
            == merge_iterator::merged(b).entries[0],
{
    merge_iterator::lemma_merged_wf(a);
    merge_iterator::lemma_merged_wf(b);
    assert(a =~= seq![a[0], a[1]]);
    assert(b =~= seq![b[0], b[1]]);
    two_merge_iterator::lemma_pair_lead(a[0], a[1]);
    two_merge_iterator::lemma_pair_lead(b[0], b[1]);
}

} // verus!
