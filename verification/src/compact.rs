//! Compaction: choosing tables to merge, merging them, and putting the output in their place.

use std::sync::Arc;

use vstd::prelude::*;

pub mod gc;
pub mod ids;
pub mod leveled;
pub mod listed;
pub mod order;
pub mod reads;
pub mod simple_leveled;
pub mod tiered;

use self::gc::{Output, Plan, Rules, Seen};
use self::leveled::{
    LeveledCompactionController, LeveledCompactionOptions, LeveledCompactionTask,
};
use self::simple_leveled::{
    SimpleLeveledCompactionController, SimpleLeveledCompactionOptions, SimpleLeveledCompactionTask,
};
use self::tiered::{
    TierTaskView, TieredCompactionController, TieredCompactionOptions, TieredCompactionTask,
};
use crate::block;
use crate::error::StorageError;
use crate::hash;
use crate::iterators::concat_iterator;
use crate::iterators::concat_iterator::SstConcatIterator;
use crate::iterators::merge_iterator;
use crate::iterators::merge_iterator::MergeIterator;
use crate::iterators::two_merge_iterator::TwoMergeIterator;
use crate::iterators::{StorageIterator, Stream};
use crate::key;
use crate::key::Entry;
use crate::lsm_storage;
use crate::lsm_storage::{CompactionFilter, LsmStorageInner, LsmStorageState, StateView};
use crate::mvcc;
use crate::mvcc::LsmMvccInner;
use crate::table::builder;
use crate::table::builder::{BuilderView, SsTableBuilder};
use crate::table::iterator as table_iterator;
use crate::table::iterator::SsTableIterator;
use crate::table::{SsTable, TableView};

verus! {

/// The mathematical value of a task that merges tables of an upper level into a lower level.
#[verifier::ext_equal]
pub struct LevelTaskView {
    pub upper_level: Option<usize>,
    pub upper: Seq<usize>,
    pub lower_level: usize,
    pub lower: Seq<usize>,
    pub to_bottom: bool,
}

/// The mathematical value of a task.
pub enum TaskView {
    Leveled(LevelTaskView),
    Tiered(TierTaskView),
    Simple(LevelTaskView),
    Full(Seq<usize>, Seq<usize>),
}

impl TaskView {
    /// Whether the output of the task is the last level.
    pub open spec fn to_bottom(self) -> bool {
        match self {
            TaskView::Leveled(t) => t.to_bottom,
            TaskView::Tiered(t) => t.bottom_included,
            TaskView::Simple(t) => t.to_bottom,
            TaskView::Full(_, _) => true,
        }
    }
}

/// What to compact.
#[derive(Debug, PartialEq, Eq)]
pub enum CompactionTask {
    Leveled(LeveledCompactionTask),
    Tiered(TieredCompactionTask),
    Simple(SimpleLeveledCompactionTask),
    ForceFullCompaction { l0_sstables: Vec<usize>, l1_sstables: Vec<usize> },
}

impl View for CompactionTask {
    type V = TaskView;

    open spec fn view(&self) -> TaskView {
        match self {
            CompactionTask::Leveled(t) => TaskView::Leveled(t@),
            CompactionTask::Tiered(t) => TaskView::Tiered(t@),
            CompactionTask::Simple(t) => TaskView::Simple(t@),
            CompactionTask::ForceFullCompaction { l0_sstables, l1_sstables } => TaskView::Full(
                l0_sstables@,
                l1_sstables@,
            ),
        }
    }
}

impl CompactionTask {
    /// Whether the output of the task is the last level.
    pub fn compact_to_bottom_level(&self) -> (r: bool)
        ensures
            r == self@.to_bottom(),
    {
        match self {
            CompactionTask::ForceFullCompaction { .. } => true,
            CompactionTask::Leveled(task) => task.is_lower_level_bottom_level,
            CompactionTask::Simple(task) => task.is_lower_level_bottom_level,
            CompactionTask::Tiered(task) => task.bottom_tier_included,
        }
    }
}

/// How to compact.
#[derive(Debug, Clone, Copy)]
pub enum CompactionOptions {
    /// Single tables by the sizes of levels.
    Leveled(LeveledCompactionOptions),
    /// Tiers.
    Tiered(TieredCompactionOptions),
    /// Whole levels by the number of their tables.
    Simple(SimpleLeveledCompactionOptions),
    /// Not at all: tables are flushed to L0 and stay there.
    NoCompaction,
}

/// The task for a state under the given options.
pub open spec fn task_for(o: CompactionOptions, s: StateView) -> Option<TaskView> {
    match o {
        CompactionOptions::Leveled(o) => match leveled::leveled_task(s, o) {
            Some(t) => Some(TaskView::Leveled(t)),
            None => None,
        },
        CompactionOptions::Tiered(o) => match tiered::tiered_task(s, o) {
            Some(t) => Some(TaskView::Tiered(t)),
            None => None,
        },
        CompactionOptions::Simple(o) => match simple_leveled::simple_task(s, o) {
            Some(t) => Some(TaskView::Simple(t)),
            None => None,
        },
        CompactionOptions::NoCompaction => None,
    }
}

/// A task can be chosen for the state. Without compaction none is ever asked for.
pub open spec fn choosable(o: CompactionOptions, s: StateView) -> bool {
    match o {
        CompactionOptions::Leveled(o) => leveled::plannable(s, o),
        CompactionOptions::Tiered(o) => {
            &&& s.l0.len() == 0
            &&& s.levels.len() > 0 || o.num_tiers > 0
            &&& tiered::tier_sum(s.levels) <= usize::MAX
        },
        CompactionOptions::Simple(o) => simple_leveled::enough_levels(s, o),
        CompactionOptions::NoCompaction => false,
    }
}

/// The task is one of the options, and its tables stand where it says.
pub open spec fn applicable(
    o: CompactionOptions,
    s: StateView,
    t: TaskView,
    output: Seq<usize>,
    in_recovery: bool,
) -> bool {
    match (o, t) {
        (CompactionOptions::Leveled(_), TaskView::Leveled(t)) => leveled::leveled_applies(
            s,
            t,
            output,
            in_recovery,
        ),
        (CompactionOptions::Simple(_), TaskView::Simple(t)) => simple_leveled::simple_applies(s, t),
        (CompactionOptions::Tiered(_), TaskView::Tiered(t)) => tiered::tiered_applies(s, t),
        _ => false,
    }
}

/// The state in which the tables of a task are replaced by its output.
pub open spec fn applied(
    s: StateView,
    t: TaskView,
    output: Seq<usize>,
    in_recovery: bool,
) -> StateView {
    match t {
        TaskView::Leveled(t) => leveled::leveled_applied(s, t, output, in_recovery),
        TaskView::Simple(t) => simple_leveled::simple_applied(s, t, output),
        TaskView::Tiered(t) => tiered::tiered_applied(s, t, output),
        TaskView::Full(_, _) => s,
    }
}

/// The tables that are no longer needed after a task.
pub open spec fn replaced_files(s: StateView, t: TaskView) -> Seq<usize> {
    match t {
        TaskView::Leveled(t) => t.upper + t.lower,
        TaskView::Simple(t) => t.upper + t.lower,
        TaskView::Tiered(t) => tiered::replaced_files(s.levels, tiered::tier_ids(t.tiers)),
        TaskView::Full(l0, l1) => l0 + l1,
    }
}

/// Chooses what to compact.
pub enum CompactionController {
    Leveled(LeveledCompactionController),
    Tiered(TieredCompactionController),
    Simple(SimpleLeveledCompactionController),
    NoCompaction,
}

impl CompactionController {
    /// The options.
    pub open spec fn opts(&self) -> CompactionOptions {
        match self {
            CompactionController::Leveled(c) => CompactionOptions::Leveled(c.opts()),
            CompactionController::Tiered(c) => CompactionOptions::Tiered(c.opts()),
            CompactionController::Simple(c) => CompactionOptions::Simple(c.opts()),
            CompactionController::NoCompaction => CompactionOptions::NoCompaction,
        }
    }

    /// The controller for the given options.
    pub fn new(options: CompactionOptions) -> (r: Self)
        ensures
            r.opts() == options,
    {
        match options {
            CompactionOptions::Leveled(o) => CompactionController::Leveled(
                LeveledCompactionController::new(o),
            ),
            CompactionOptions::Tiered(o) => CompactionController::Tiered(
                TieredCompactionController::new(o),
            ),
            CompactionOptions::Simple(o) => CompactionController::Simple(
                SimpleLeveledCompactionController::new(o),
            ),
            CompactionOptions::NoCompaction => CompactionController::NoCompaction,
        }
    }

    /// The options.
    pub fn options(&self) -> (r: CompactionOptions)
        ensures
            r == self.opts(),
    {
        match self {
            CompactionController::Leveled(ctrl) => CompactionOptions::Leveled(ctrl.options()),
            CompactionController::Tiered(ctrl) => CompactionOptions::Tiered(ctrl.options()),
            CompactionController::Simple(ctrl) => CompactionOptions::Simple(ctrl.options()),
            CompactionController::NoCompaction => CompactionOptions::NoCompaction,
        }
    }

    /// Whether a task can be chosen for a state.
    pub fn can_choose(&self, snapshot: &LsmStorageState) -> (r: bool)
        ensures
            r == choosable(self.opts(), snapshot@),
    {
        match self {
            CompactionController::Leveled(ctrl) => ctrl.can_choose(snapshot),
            CompactionController::Tiered(ctrl) => ctrl.can_choose(snapshot),
            CompactionController::Simple(ctrl) => ctrl.can_choose(snapshot),
            CompactionController::NoCompaction => false,
        }
    }

    /// The task for a state, if there is anything to compact.
    pub fn generate_compaction_task(&self, snapshot: &LsmStorageState) -> (r: Option<
        CompactionTask,
    >)
        requires
            choosable(self.opts(), snapshot@),
        ensures
            match r {
                Some(t) => task_for(self.opts(), snapshot@) == Some(t@),
                None => task_for(self.opts(), snapshot@) is None,
            },
    {
        match self {
            CompactionController::Leveled(ctrl) => match ctrl.generate_compaction_task(snapshot) {
                Some(t) => Some(CompactionTask::Leveled(t)),
                None => None,
            },
            CompactionController::Simple(ctrl) => match ctrl.generate_compaction_task(snapshot) {
                Some(t) => Some(CompactionTask::Simple(t)),
                None => None,
            },
            CompactionController::Tiered(ctrl) => match ctrl.generate_compaction_task(snapshot) {
                Some(t) => Some(CompactionTask::Tiered(t)),
                None => None,
            },
            CompactionController::NoCompaction => None,
        }
    }

    /// The state in which the tables of a task are replaced by its output, and the tables that are
    /// no longer needed.
    pub fn apply_compaction_result(
        &self,
        snapshot: &LsmStorageState,
        task: &CompactionTask,
        output: &[usize],
        in_recovery: bool,
    ) -> (r: (LsmStorageState, Vec<usize>))
        requires
            applicable(self.opts(), snapshot@, task@, output@, in_recovery),
        ensures
            r.0@ == applied(snapshot@, task@, output@, in_recovery),
            r.1@ == replaced_files(snapshot@, task@),
            snapshot.wf() ==> r.0.wf(),
    {
        match (self, task) {
            (CompactionController::Leveled(ctrl), CompactionTask::Leveled(task)) => {
                ctrl.apply_compaction_result(snapshot, task, output, in_recovery)
            },
            (CompactionController::Simple(ctrl), CompactionTask::Simple(task)) => {
                ctrl.apply_compaction_result(snapshot, task, output)
            },
            (CompactionController::Tiered(ctrl), CompactionTask::Tiered(task)) => {
                ctrl.apply_compaction_result(snapshot, task, output)
            },
            _ => (snapshot.snapshot(), Vec::new()),
        }
    }

    /// Whether tables are flushed to L0. Tiered compaction has no L0.
    pub fn flush_to_l0(&self) -> (r: bool)
        ensures
            r == !(self.opts() is Tiered),
    {
        match self {
            CompactionController::Tiered(_) => false,
            _ => true,
        }
    }
}

/// The tables with the given numbers.
pub open spec fn tables_of(s: StateView, list: Seq<usize>) -> Seq<TableView> {
    Seq::new(list.len(), |i: int| s.tables[list[i]])
}

/// The tables with the given numbers are known and have blocks.
pub open spec fn readable_ids(s: StateView, list: Seq<usize>) -> bool {
    forall|i: int| 0 <= i < list.len() ==> #[trigger] readable_id(s, list[i])
}

pub open spec fn readable_id(s: StateView, id: usize) -> bool {
    s.tables.dom().contains(id) && s.tables[id].metas.len() > 0
}

/// What the tables hand out.
pub open spec fn table_streams(ts: Seq<TableView>) -> Seq<Stream> {
    Seq::new(ts.len(), |i: int| table_iterator::table_stream(ts[i]))
}

/// The first stream that begins with an error gives the error.
#[verifier::opaque]
pub open spec fn first_fault(ss: Seq<Stream>) -> Option<StorageError>
    decreases ss.len(),
{
    if ss.len() == 0 {
        None
    } else {
        match ss[0].landed() {
            Err(e) => Some(e),
            Ok(_) => first_fault(ss.skip(1)),
        }
    }
}

/// Streams that are opened one after the other and merged.
#[verifier::opaque]
pub open spec fn merged_source(ss: Seq<Stream>) -> Result<Stream, StorageError> {
    match first_fault(ss) {
        Some(e) => Err(e),
        None => Ok(merge_iterator::merged(ss)),
    }
}

/// Tables that overlap, the newest first, merged.
#[verifier::opaque]
pub open spec fn merged_tables(ts: Seq<TableView>) -> Result<Stream, StorageError> {
    merged_source(table_streams(ts))
}

/// Tables that do not overlap, one behind the other.
#[verifier::opaque]
pub open spec fn joined_tables(ts: Seq<TableView>) -> Result<Stream, StorageError> {
    concat_iterator::tables_from(ts, 0).landed()
}

/// What the tiers hand out.
pub open spec fn tier_streams(s: StateView, tiers: Seq<(usize, Seq<usize>)>) -> Seq<Stream> {
    Seq::new(
        tiers.len(),
        |i: int| concat_iterator::tables_from(tables_of(s, tiers[i].1), 0),
    )
}

/// What merging a lower level with the tables of an upper level, or of L0, hands out. The lower
/// level is opened first.
pub open spec fn level_source(s: StateView, t: LevelTaskView) -> Result<Stream, StorageError> {
    match joined_tables(tables_of(s, t.lower)) {
        Err(e) => Err(e),
        Ok(b) => match if t.upper_level is Some {
            joined_tables(tables_of(s, t.upper))
        } else {
            merged_tables(tables_of(s, t.upper))
        } {
            Err(e) => Err(e),
            Ok(a) => Ok(merge_iterator::merged(seq![a, b])),
        },
    }
}

/// What the tables of a task hand out, merged.
pub open spec fn source(s: StateView, t: TaskView) -> Result<Stream, StorageError> {
    match t {
        TaskView::Full(l0, l1) => match merged_tables(tables_of(s, l0)) {
            Err(e) => Err(e),
            Ok(a) => match joined_tables(tables_of(s, l1)) {
                Err(e) => Err(e),
                Ok(b) => Ok(merge_iterator::merged(seq![a, b])),
            },
        },
        TaskView::Simple(t) => level_source(s, t),
        TaskView::Leveled(t) => level_source(s, t),
        TaskView::Tiered(t) => merged_source(tier_streams(s, t.tiers)),
    }
}

/// The tables of a task are known and have blocks.
pub open spec fn readable_task(s: StateView, t: TaskView) -> bool {
    match t {
        TaskView::Full(l0, l1) => readable_ids(s, l0) && readable_ids(s, l1),
        TaskView::Simple(t) => readable_ids(s, t.upper) && readable_ids(s, t.lower),
        TaskView::Leveled(t) => readable_ids(s, t.upper) && readable_ids(s, t.lower),
        TaskView::Tiered(t) => forall|i: int|
            0 <= i < t.tiers.len() ==> readable_ids(s, (#[trigger] t.tiers[i]).1),
    }
}

/// The tables that an output becomes, with numbers from `first` on.
pub open spec fn built_tables(ts: Seq<Arc<SsTable>>, out: Output, first: int) -> bool {
    &&& ts.len() == out.tables.len()
    &&& forall|i: int| 0 <= i < ts.len() ==> #[trigger] built_table(ts[i], out.tables[i], first + i)
}

pub open spec fn built_table(t: Arc<SsTable>, cs: Seq<Seq<Entry>>, id: int) -> bool {
    &&& t.wf()
    &&& t@ == builder::built(id as usize, cs)
    &&& builder::good_chunks(cs)
}

/// An output was written into tables with the next numbers. Nothing else changed.
pub open spec fn written(
    before: LsmStorageInner,
    after: LsmStorageInner,
    out: Output,
    r: Result<Vec<Arc<SsTable>>, StorageError>,
) -> bool {
    &&& after == (LsmStorageInner {
        next_id: (before.next_id + out.tables.len()) as usize,
        ..before
    })
    &&& match r {
        Ok(ts) => out.fault is None && built_tables(ts@, out, before.next_id as int),
        Err(e) => out.fault == Some(e),
    }
}

/// The prefixes of filters.
pub open spec fn prefixes_of(filters: Seq<CompactionFilter>) -> Seq<Seq<u8>> {
    Seq::new(filters.len(), |i: int| filters[i].prefix())
}

impl LsmStorageInner {
    /// How a compaction into the last level, or into another one, runs now.
    pub open spec fn plan(&self, to_bottom: bool) -> Plan {
        Plan {
            rules: Rules {
                watermark: self.mvcc@.watermark(),
                to_bottom,
                prefixes: prefixes_of(self.compaction_filters@),
            },
            block_size: self.options.block_size,
            target_size: self.options.target_sst_size,
        }
    }

    /// Whether a filter matches the key.
    fn is_filtered(&self, k: &[u8]) -> (r: bool)
        ensures
            r == gc::filtered(prefixes_of(self.compaction_filters@), k@),
    {
        let ghost ps = prefixes_of(self.compaction_filters@);
        let mut i: usize = 0;
        while i < self.compaction_filters.len()
            invariant
                i <= self.compaction_filters@.len(),
                ps == prefixes_of(self.compaction_filters@),
                forall|j: int| 0 <= j < i ==> !(#[trigger] ps[j]).is_prefix_of(k@),
            decreases self.compaction_filters@.len() - i,
        {
            if self.compaction_filters[i].matches(k) {
                assert(ps[i as int].is_prefix_of(k@));
                return true;
            }
            assert(!ps[i as int].is_prefix_of(k@));
            i += 1;
        }
        false
    }

    /// Hands out the next table number.
    fn next_sst_id(&mut self) -> (r: usize)
        requires
            old(self).next_id < usize::MAX,
        ensures
            r == old(self).next_id,
            *final(self) == (LsmStorageInner { next_id: (r + 1) as usize, ..*old(self) }),
    {
        let id: usize = self.next_id;
        self.next_id = id + 1;
        id
    }

    /// Writes what a compaction keeps of the entries of an iterator into tables. All versions of a
    /// key go into one table.
    pub fn compact_generate_sst_from_iter<I: StorageIterator>(
        &mut self,
        iter: I,
        compact_to_bottom_level: bool,
    ) -> (r: Result<Vec<Arc<SsTable>>, StorageError>)
        requires
            iter.wf(),
            block::valid_entries(iter.stream().entries),
            old(self).next_id + iter.stream().entries.len() <= usize::MAX,
            hash::hashable_keys(
                old(self).plan(compact_to_bottom_level).rules.kept(
                    iter.stream().entries,
                    Seen::nothing(),
                ),
            ),
        ensures
            written(
                *old(self),
                *final(self),
                old(self).plan(compact_to_bottom_level).output(iter.stream()),
                r,
            ),
    {
        let ghost p = self.plan(compact_to_bottom_level);
        let ghost start = *self;
        let ghost first = self.next_id as int;
        let ghost whole = p.output(iter.stream());
        reveal(Plan::output);
        let mut rows = iter;
        let watermark: u64 = self.mvcc.watermark();
        let block_size: usize = self.options.block_size;
        let mut builder = SsTableBuilder::new(block_size);
        let mut new_sst: Vec<Arc<SsTable>> = Vec::new();
        let ghost mut done: Seq<Seq<Seq<Entry>>> = Seq::empty();
        let mut last_key: Vec<u8> = Vec::new();
        let mut fresh: bool = true;
        proof {
            assert(last_key@ =~= Seq::empty());
            assert(builder@.all() =~= Seq::empty());
            let more = p.run(rows.stream(), Seen::nothing(), builder@);
            assert(done + more.tables =~= more.tables);
        }
        while rows.is_valid()
            invariant
                rows.wf(),
                block::valid_entries(rows.stream().entries),
                hash::hashable_keys(
                    p.rules.kept(rows.stream().entries, Seen { last: last_key@, fresh }),
                ),
                start == *old(self),
                p == start.plan(compact_to_bottom_level),
                first == start.next_id,
                whole == p.output(iter.stream()),
                watermark == p.rules.watermark,
                block_size == p.block_size,
                builder.wf(),
                builder@.block_size == p.block_size,
                *self == (LsmStorageInner { next_id: (first + done.len()) as usize, ..start }),
                first + done.len() + rows.stream().entries.len() + if builder@.all().len() > 0 {
                    1int
                } else {
                    0int
                } <= usize::MAX,
                built_tables(new_sst@, (Output { tables: done, fault: None }), first),
                whole.tables == done + p.run(
                    rows.stream(),
                    Seen { last: last_key@, fresh },
                    builder@,
                ).tables,
                whole.fault == p.run(
                    rows.stream(),
                    Seen { last: last_key@, fresh },
                    builder@,
                ).fault,
            decreases rows.stream().entries.len(),
        {
            let ghost s = rows.stream();
            let ghost e = s.entries[0];
            let ghost seen = Seen { last: last_key@, fresh };
            let ghost b = builder@;
            let ghost rest = Stream { entries: s.entries.skip(1), fault: s.fault };
            assert(block::valid_entry(s.entries[0]));
            if !key::bytes_eq(rows.key().key_ref(), last_key.as_slice()) {
                last_key = key::copy_bytes(rows.key().key_ref());
                fresh = true;
            }
            let should_add: bool = if rows.key().ts() > watermark {
                true
            } else if !fresh {
                false
            } else {
                fresh = false;
                if compact_to_bottom_level && rows.value().len() == 0 {
                    false
                } else {
                    !self.is_filtered(last_key.as_slice())
                }
            };
            assert(should_add == p.rules.keeps(seen, e));
            let ghost next = Seen { last: last_key@, fresh };
            assert(next == p.rules.after(seen, e));
            let ghost kept = p.rules.kept(s.entries, seen);
            let ghost tail = p.rules.kept(rest.entries, next);
            proof {
                assert forall|i: int| 0 <= i < tail.len() implies hash::hashable(
                    (#[trigger] tail[i]).key.key,
                ) by {
                    assert(should_add ==> tail[i] == kept[i + 1]);
                    assert(!should_add ==> tail[i] == kept[i]);
                }
                assert(should_add ==> kept[0] == e);
            }
            if should_add {
                builder.add(rows.key(), rows.value());
            }
            proof {
                builder::lemma_added_all(b, e);
            }
            let ghost fed = builder@;
            assert(fed == p.fed(seen, b, e));
            match rows.next() {
                Ok(()) => {},
                Err(err) => {
                    assert(whole.tables =~= done);
                    return Err(err);
                },
            }
            assert(rows.stream() == rest);
            assert forall|i: int| 0 <= i < rest.entries.len() implies #[trigger] block::valid_entry(
                rest.entries[i],
            ) by {
                assert(block::valid_entry(s.entries[i + 1]));
            }
            let full: bool = builder.estimated_size() >= self.options.target_sst_size;
            if full && (!rows.is_valid() || !key::bytes_eq(
                rows.key().key_ref(),
                last_key.as_slice(),
            )) {
                assert(p.splits(fed, e.key.key, rest.entries));
                let ghost empty = BuilderView::empty(p.block_size);
                let ghost more = p.run(rest, next, empty);
                let mut full_builder = SsTableBuilder::new(block_size);
                std::mem::swap(&mut builder, &mut full_builder);
                assert(empty.all() =~= Seq::empty());
                if !full_builder.is_empty() {
                    let id: usize = self.next_sst_id();
                    proof {
                        full_builder.lemma_chunks();
                    }
                    let sst = Arc::new(full_builder.build(id));
                    new_sst.push(sst);
                    proof {
                        let before = done;
                        done = done.push(fed.chunks());
                        assert(before + (seq![fed.chunks()] + more.tables) =~= done + more.tables);
                        lemma_built_push(new_sst@, before, fed.chunks(), first);
                    }
                }
            }
        }
        let ghost last_done = done;
        if !builder.is_empty() {
            let id: usize = self.next_sst_id();
            let ghost chunks = builder@.chunks();
            proof {
                builder.lemma_chunks();
            }
            let sst = Arc::new(builder.build(id));
            new_sst.push(sst);
            proof {
                done = done.push(chunks);
                assert(whole.tables =~= done);
                lemma_built_push(new_sst@, last_done, chunks, first);
            }
        } else {
            assert(whole.tables =~= done);
        }
        Ok(new_sst)
    }
}

proof fn lemma_built_push(
    ts: Seq<Arc<SsTable>>,
    before: Seq<Seq<Seq<Entry>>>,
    chunks: Seq<Seq<Entry>>,
    first: int,
)
    requires
        ts.len() > 0,
        built_tables(ts.drop_last(), (Output { tables: before, fault: None }), first),
        built_table(ts.last(), chunks, first + before.len()),
    ensures
        built_tables(ts, (Output { tables: before.push(chunks), fault: None }), first),
{
    let all = before.push(chunks);
    assert forall|i: int| 0 <= i < ts.len() implies #[trigger] built_table(
        ts[i],
        all[i],
        first + i,
    ) by {
        if i < before.len() {
            assert(built_table(ts.drop_last()[i], before[i], first + i));
        }
    }
}

proof fn lemma_first_fault_at(ss: Seq<Stream>, i: int)
    requires
        0 <= i < ss.len(),
    ensures
        first_fault(ss.skip(i)) == match ss[i].landed() {
            Err(e) => Some(e),
            Ok(_) => first_fault(ss.skip(i + 1)),
        },
{
    reveal(first_fault);
    assert(ss.skip(i)[0] == ss[i]);
    assert(ss.skip(i).skip(1) =~= ss.skip(i + 1));
}

proof fn lemma_first_fault_end(ss: Seq<Stream>)
    ensures
        first_fault(ss.skip(ss.len() as int)) is None,
{
    reveal(first_fault);
}

/// The tables with the given numbers.
fn collect_tables(state: &LsmStorageState, list: &Vec<usize>) -> (r: Vec<Arc<SsTable>>)
    requires
        state.wf(),
        readable_ids(state@, list@),
    ensures
        concat_iterator::tables_view(r@) == tables_of(state@, list@),
        concat_iterator::readable(r@),
{
    let mut out: Vec<Arc<SsTable>> = Vec::new();
    let mut i: usize = 0;
    while i < list.len()
        invariant
            i <= list@.len(),
            state.wf(),
            readable_ids(state@, list@),
            out@.len() == i,
            forall|j: int| 0 <= j < i ==> (#[trigger] out@[j])@ == state@.tables[list@[j]],
            concat_iterator::readable(out@),
        decreases list@.len() - i,
    {
        assert(readable_id(state@, list@[i as int]));
        let table: Arc<SsTable> = state.table(list[i]).unwrap().clone();
        out.push(table);
        i += 1;
    }
    assert(concat_iterator::tables_view(out@) =~= tables_of(state@, list@));
    out
}

/// An iterator over tables that do not overlap.
fn open_joined(state: &LsmStorageState, list: &Vec<usize>) -> (r: Result<
    SstConcatIterator,
    StorageError,
>)
    requires
        state.wf(),
        readable_ids(state@, list@),
    ensures
        match r {
            Ok(it) => it.wf() && joined_tables(tables_of(state@, list@)) == Ok::<
                Stream,
                StorageError,
            >(it.stream()),
            Err(e) => joined_tables(tables_of(state@, list@)) == Err::<Stream, StorageError>(e),
        },
{
    reveal(joined_tables);
    SstConcatIterator::create_and_seek_to_first(collect_tables(state, list))
}

/// An iterator over tables that overlap.
fn open_merged(state: &LsmStorageState, list: &Vec<usize>) -> (r: Result<
    MergeIterator<SsTableIterator>,
    StorageError,
>)
    requires
        state.wf(),
        readable_ids(state@, list@),
    ensures
        match r {
            Ok(it) => it.wf() && merged_tables(tables_of(state@, list@)) == Ok::<
                Stream,
                StorageError,
            >(it.stream()),
            Err(e) => merged_tables(tables_of(state@, list@)) == Err::<Stream, StorageError>(e),
        },
{
    let tables: Vec<Arc<SsTable>> = collect_tables(state, list);
    reveal(merged_tables);
    reveal(merged_source);
    let ghost ss = table_streams(tables_of(state@, list@));
    let mut iters: Vec<SsTableIterator> = Vec::new();
    let mut i: usize = 0;
    assert(ss.skip(0) =~= ss);
    while i < tables.len()
        invariant
            i <= tables@.len(),
            ss == table_streams(tables_of(state@, list@)),
            concat_iterator::tables_view(tables@) == tables_of(state@, list@),
            concat_iterator::readable(tables@),
            iters@.len() == i,
            merge_iterator::all_wf(iters@),
            forall|j: int| 0 <= j < i ==> (#[trigger] iters@[j]).stream() == ss[j],
            first_fault(ss) == first_fault(ss.skip(i as int)),
        decreases tables@.len() - i,
    {
        reveal(merged_tables);
        reveal(merged_source);
        proof {
            lemma_first_fault_at(ss, i as int);
        }
        assert(tables@[i as int].wf());
        assert(concat_iterator::tables_view(tables@)[i as int] == tables@[i as int]@);
        match SsTableIterator::create_and_seek_to_first(tables[i].clone()) {
            Ok(it) => {
                iters.push(it);
            },
            Err(e) => {
                return Err(e);
            },
        }
        i += 1;
    }
    proof {
        lemma_first_fault_end(ss);
    }
    assert(merge_iterator::streams(iters@) =~= ss);
    Ok(MergeIterator::create(iters))
}

/// An iterator over tiers.
fn open_tiers(state: &LsmStorageState, tiers: &Vec<(usize, Vec<usize>)>) -> (r: Result<
    MergeIterator<SstConcatIterator>,
    StorageError,
>)
    requires
        state.wf(),
        forall|i: int|
            0 <= i < tiers@.len() ==> readable_ids(
                state@,
                (#[trigger] lsm_storage::levels_view(tiers@)[i]).1,
            ),
    ensures
        match r {
            Ok(it) => it.wf() && merged_source(
                tier_streams(state@, lsm_storage::levels_view(tiers@)),
            ) == Ok::<Stream, StorageError>(it.stream()),
            Err(e) => merged_source(tier_streams(state@, lsm_storage::levels_view(tiers@)))
                == Err::<Stream, StorageError>(e),
        },
{
    reveal(merged_source);
    let ghost ss = tier_streams(state@, lsm_storage::levels_view(tiers@));
    let mut iters: Vec<SstConcatIterator> = Vec::new();
    let mut i: usize = 0;
    assert(ss.skip(0) =~= ss);
    while i < tiers.len()
        invariant
            i <= tiers@.len(),
            state.wf(),
            ss == tier_streams(state@, lsm_storage::levels_view(tiers@)),
            forall|i: int|
                0 <= i < tiers@.len() ==> readable_ids(
                    state@,
                    (#[trigger] lsm_storage::levels_view(tiers@)[i]).1,
                ),
            iters@.len() == i,
            merge_iterator::all_wf(iters@),
            forall|j: int| 0 <= j < i ==> (#[trigger] iters@[j]).stream() == ss[j],
            first_fault(ss) == first_fault(ss.skip(i as int)),
        decreases tiers@.len() - i,
    {
        reveal(joined_tables);
        reveal(merged_source);
        proof {
            lemma_first_fault_at(ss, i as int);
        }
        assert(lsm_storage::levels_view(tiers@)[i as int].1 == tiers@[i as int].1@);
        match open_joined(state, &tiers[i].1) {
            Ok(it) => {
                iters.push(it);
            },
            Err(e) => {
                return Err(e);
            },
        }
        i += 1;
    }
    proof {
        lemma_first_fault_end(ss);
    }
    assert(merge_iterator::streams(iters@) =~= ss);
    Ok(MergeIterator::create(iters))
}

proof fn lemma_tables_merged_valid(ts: Seq<TableView>)
    ensures
        merged_tables(ts) matches Ok(a) ==> block::valid_entries(a.entries),
        joined_tables(ts) matches Ok(a) ==> block::valid_entries(a.entries),
{
    reveal(merged_tables);
    reveal(merged_source);
    reveal(joined_tables);
    let ss = table_streams(ts);
    assert forall|i: int| 0 <= i < ss.len() implies block::valid_entries(
        (#[trigger] ss[i]).entries,
    ) by {
        table_iterator::lemma_table_stream_valid(ts[i]);
    }
    merge_iterator::lemma_merged_valid(ss);
    concat_iterator::lemma_tables_valid(ts, 0);
}

proof fn lemma_pair_valid(a: Stream, b: Stream)
    requires
        block::valid_entries(a.entries),
        block::valid_entries(b.entries),
    ensures
        block::valid_entries(merge_iterator::merged(seq![a, b]).entries),
{
    let ss = seq![a, b];
    assert forall|i: int| 0 <= i < ss.len() implies block::valid_entries(
        (#[trigger] ss[i]).entries,
    ) by {}
    merge_iterator::lemma_merged_valid(ss);
}

/// What the tables of a task hand out has keys and values of representable lengths.
pub proof fn lemma_source_valid(s: StateView, t: TaskView)
    ensures
        source(s, t) matches Ok(a) ==> block::valid_entries(a.entries),
{
    if source(s, t) is Ok {
        match t {
            TaskView::Full(l0, l1) => {
                lemma_tables_merged_valid(tables_of(s, l0));
                lemma_tables_merged_valid(tables_of(s, l1));
                lemma_pair_valid(
                    merged_tables(tables_of(s, l0))->Ok_0,
                    joined_tables(tables_of(s, l1))->Ok_0,
                );
            },
            TaskView::Simple(t) => {
                lemma_level_source_valid(s, t);
            },
            TaskView::Leveled(t) => {
                lemma_level_source_valid(s, t);
            },
            TaskView::Tiered(t) => {
                reveal(merged_source);
                let ss = tier_streams(s, t.tiers);
                assert forall|i: int| 0 <= i < ss.len() implies block::valid_entries(
                    (#[trigger] ss[i]).entries,
                ) by {
                    concat_iterator::lemma_tables_valid(tables_of(s, t.tiers[i].1), 0);
                }
                merge_iterator::lemma_merged_valid(ss);
            },
        }
    }
}

proof fn lemma_level_source_valid(s: StateView, t: LevelTaskView)
    ensures
        level_source(s, t) matches Ok(a) ==> block::valid_entries(a.entries),
{
    if level_source(s, t) is Ok {
        lemma_tables_merged_valid(tables_of(s, t.upper));
        lemma_tables_merged_valid(tables_of(s, t.lower));
        let a = if t.upper_level is Some {
            joined_tables(tables_of(s, t.upper))
        } else {
            merged_tables(tables_of(s, t.upper))
        };
        lemma_pair_valid(a->Ok_0, joined_tables(tables_of(s, t.lower))->Ok_0);
    }
}

/// Tables added to known ones, each under its own number.
pub open spec fn stored(m: Map<usize, TableView>, ts: Seq<TableView>) -> Map<usize, TableView>
    decreases ts.len(),
{
    if ts.len() == 0 {
        m
    } else {
        stored(m, ts.drop_last()).insert(ts.last().id, ts.last())
    }
}

/// The numbers of tables.
pub open spec fn ids_of(ts: Seq<TableView>) -> Seq<usize> {
    Seq::new(ts.len(), |i: int| ts[i].id)
}

/// The state after a full compaction: the tables of L0 and L1 that were compacted are gone, and the
/// output is L1.
pub open spec fn fully_installed(
    s: StateView,
    l0: Seq<usize>,
    l1: Seq<usize>,
    new: Seq<TableView>,
) -> StateView {
    StateView {
        l0: ids::without(s.l0, l0.to_set()),
        levels: s.levels.update(0, (s.levels[0].0, ids_of(new))),
        tables: stored(s.tables.remove_keys((l0 + l1).to_set()), new),
    }
}

/// The tables that were compacted are known, each is named once, and they stand in L0 and L1. New
/// tables may stand in L0 too.
pub open spec fn full_applies(s: StateView, l0: Seq<usize>, l1: Seq<usize>) -> bool {
    &&& s.knows(l0 + l1)
    &&& (l0 + l1).no_duplicates()
    &&& ids::covers(s.l0, l0)
    &&& s.levels.len() > 0
    &&& s.levels[0].1 == l1
}

/// The state after a task of the controller: its output is in place of its tables, and those are
/// gone.
pub open spec fn installed(s: StateView, t: TaskView, new: Seq<TableView>) -> StateView {
    let known = StateView { tables: stored(s.tables, new), ..s };
    let placed = applied(known, t, ids_of(new), false);
    StateView {
        tables: placed.tables.remove_keys(replaced_files(known, t).to_set()),
        ..placed
    }
}

/// What a compaction did.
#[derive(Debug)]
pub struct CompactionDone {
    /// The task.
    pub task: CompactionTask,
    /// The numbers of the tables that were written.
    pub output: Vec<usize>,
    /// The numbers of the tables that are no longer needed.
    pub removed: Vec<usize>,
}

/// Adds tables to the state.
fn store_tables(state: &mut LsmStorageState, new_ssts: &Vec<Arc<SsTable>>) -> (r: Vec<usize>)
    requires
        concat_iterator::all_wf(new_ssts@),
    ensures
        final(state)@ == (StateView {
            tables: stored(old(state)@.tables, concat_iterator::tables_view(new_ssts@)),
            ..old(state)@
        }),
        r@ == ids_of(concat_iterator::tables_view(new_ssts@)),
        old(state).wf() ==> final(state).wf(),
{
    broadcast use vstd::std_specs::hash::group_hash_axioms;

    let ghost new = concat_iterator::tables_view(new_ssts@);
    let mut out: Vec<usize> = Vec::new();
    let mut i: usize = 0;
    assert(new.take(0) =~= Seq::empty());
    while i < new_ssts.len()
        invariant
            i <= new_ssts@.len(),
            new == concat_iterator::tables_view(new_ssts@),
            concat_iterator::all_wf(new_ssts@),
            out@ == ids_of(new.take(i as int)),
            state@ == (StateView {
                tables: stored(old(state)@.tables, new.take(i as int)),
                ..old(state)@
            }),
            old(state).wf() ==> state.wf(),
        decreases new_ssts@.len() - i,
    {
        let ghost before = state.sstables@;
        let ghost was = *state;
        let id: usize = new_ssts[i].sst_id();
        let table: Arc<SsTable> = new_ssts[i].clone();
        state.sstables.insert(id, table);
        out.push(id);
        proof {
            assert(new.take(i + 1).drop_last() =~= new.take(i as int));
            assert(new.take(i + 1).last() == new[i as int]);
            assert(lsm_storage::tables_by_id(state.sstables@) =~= lsm_storage::tables_by_id(
                before,
            ).insert(id, new[i as int]));
            assert(out@ =~= ids_of(new.take(i + 1)));
            assert(state@ =~= (StateView {
                tables: stored(old(state)@.tables, new.take(i + 1)),
                ..old(state)@
            }));
            assert(new_ssts@[i as int].wf());
        }
        i += 1;
    }
    assert(new.take(i as int) =~= new);
    out
}

/// Removes tables from the state.
fn forget_tables(state: &mut LsmStorageState, list: &Vec<usize>)
    ensures
        final(state)@ == (StateView {
            tables: old(state)@.tables.remove_keys(list@.to_set()),
            ..old(state)@
        }),
        old(state).wf() ==> final(state).wf(),
{
    broadcast use vstd::std_specs::hash::group_hash_axioms;

    let mut i: usize = 0;
    proof {
        assert(list@.take(0) =~= Seq::empty());
        assert(state@.tables.remove_keys(list@.take(0).to_set()) =~= state@.tables);
    }
    while i < list.len()
        invariant
            i <= list@.len(),
            state@ == (StateView {
                tables: old(state)@.tables.remove_keys(list@.take(i as int).to_set()),
                ..old(state)@
            }),
            old(state).wf() ==> state.wf(),
        decreases list@.len() - i,
    {
        let ghost before = state.sstables@;
        state.sstables.remove(&list[i]);
        proof {
            ids::lemma_take_to_set(list@, i as int);
            assert(lsm_storage::tables_by_id(state.sstables@) =~= lsm_storage::tables_by_id(
                before,
            ).remove(list@[i as int]));
            assert(state@ =~= (StateView {
                tables: old(state)@.tables.remove_keys(list@.take(i + 1).to_set()),
                ..old(state)@
            }));
        }
        i += 1;
    }
    assert(list@.take(i as int) =~= list@);
}

impl LsmStorageInner {
    /// What compacting the tables of a task writes now.
    pub open spec fn outcome(&self, t: TaskView) -> Output {
        match source(self.state@, t) {
            Err(e) => Output { tables: Seq::empty(), fault: Some(e) },
            Ok(s) => self.plan(t.to_bottom()).output(s),
        }
    }

    /// The tables of a task can be compacted: they are known and have blocks, there are enough
    /// numbers for new tables, and the keys that are kept can be hashed.
    pub open spec fn compactable(&self, t: TaskView) -> bool {
        &&& self.state.wf()
        &&& readable_task(self.state@, t)
        &&& source(self.state@, t) matches Ok(s) ==> {
            &&& self.next_id + s.entries.len() <= usize::MAX
            &&& hash::hashable_keys(
                self.plan(t.to_bottom()).rules.kept(s.entries, Seen::nothing()),
            )
        }
    }

    /// Merges the tables of a task into new tables.
    pub fn compact(&mut self, task: &CompactionTask) -> (r: Result<Vec<Arc<SsTable>>, StorageError>)
        requires
            old(self).compactable(task@),
        ensures
            written(*old(self), *final(self), old(self).outcome(task@), r),
    {
        match task {
            CompactionTask::ForceFullCompaction { l0_sstables, l1_sstables } => self.compact_full(
                l0_sstables,
                l1_sstables,
            ),
            CompactionTask::Simple(t) => self.compact_levels(
                t.upper_level.is_some(),
                &t.upper_level_sst_ids,
                &t.lower_level_sst_ids,
                t.is_lower_level_bottom_level,
                Ghost(t@),
            ),
            CompactionTask::Leveled(t) => self.compact_levels(
                t.upper_level.is_some(),
                &t.upper_level_sst_ids,
                &t.lower_level_sst_ids,
                t.is_lower_level_bottom_level,
                Ghost(t@),
            ),
            CompactionTask::Tiered(t) => self.compact_tiers(t),
        }
    }

    /// Merges tables of L0 with tables of L1.
    fn compact_full(&mut self, l0_sstables: &Vec<usize>, l1_sstables: &Vec<usize>) -> (r: Result<
        Vec<Arc<SsTable>>,
        StorageError,
    >)
        requires
            old(self).compactable(TaskView::Full(l0_sstables@, l1_sstables@)),
        ensures
            written(
                *old(self),
                *final(self),
                old(self).outcome(TaskView::Full(l0_sstables@, l1_sstables@)),
                r,
            ),
    {
        proof {
            lemma_source_valid(self.state@, TaskView::Full(l0_sstables@, l1_sstables@));
        }
        let upper = match open_merged(&self.state, l0_sstables) {
            Ok(it) => it,
            Err(e) => {
                return Err(e);
            },
        };
        let lower = match open_joined(&self.state, l1_sstables) {
            Ok(it) => it,
            Err(e) => {
                return Err(e);
            },
        };
        let iter = TwoMergeIterator::create(upper, lower);
        self.compact_generate_sst_from_iter(iter, true)
    }

    /// Merges tiers.
    fn compact_tiers(&mut self, task: &TieredCompactionTask) -> (r: Result<
        Vec<Arc<SsTable>>,
        StorageError,
    >)
        requires
            old(self).compactable(TaskView::Tiered(task@)),
        ensures
            written(*old(self), *final(self), old(self).outcome(TaskView::Tiered(task@)), r),
    {
        proof {
            lemma_source_valid(self.state@, TaskView::Tiered(task@));
        }
        let iter = match open_tiers(&self.state, &task.tiers) {
            Ok(it) => it,
            Err(e) => {
                return Err(e);
            },
        };
        self.compact_generate_sst_from_iter(iter, task.bottom_tier_included)
    }

    /// Merges tables of an upper level, or of L0, with tables of a lower level.
    fn compact_levels(
        &mut self,
        from_level: bool,
        upper: &Vec<usize>,
        lower: &Vec<usize>,
        to_bottom: bool,
        Ghost(t): Ghost<LevelTaskView>,
    ) -> (r: Result<Vec<Arc<SsTable>>, StorageError>)
        requires
            from_level == t.upper_level is Some,
            upper@ == t.upper,
            lower@ == t.lower,
            to_bottom == t.to_bottom,
            old(self).compactable(TaskView::Simple(t)),
        ensures
            written(*old(self), *final(self), old(self).outcome(TaskView::Simple(t)), r),
    {
        proof {
            lemma_source_valid(self.state@, TaskView::Simple(t));
        }
        let lower_iter = match open_joined(&self.state, lower) {
            Ok(it) => it,
            Err(e) => {
                return Err(e);
            },
        };
        if from_level {
            let upper_iter = match open_joined(&self.state, upper) {
                Ok(it) => it,
                Err(e) => {
                    return Err(e);
                },
            };
            let iter = TwoMergeIterator::create(upper_iter, lower_iter);
            self.compact_generate_sst_from_iter(iter, to_bottom)
        } else {
            let upper_iter = match open_merged(&self.state, upper) {
                Ok(it) => it,
                Err(e) => {
                    return Err(e);
                },
            };
            let iter = TwoMergeIterator::create(upper_iter, lower_iter);
            self.compact_generate_sst_from_iter(iter, to_bottom)
        }
    }

    /// A copy on which tables can be compacted while others change the storage. It has the next
    /// `numbers` table numbers for itself.
    pub fn working_copy(&mut self, numbers: usize) -> (r: LsmStorageInner)
        requires
            old(self).next_id + numbers <= usize::MAX,
        ensures
            *final(self) == (LsmStorageInner {
                next_id: (old(self).next_id + numbers) as usize,
                ..*old(self)
            }),
            r.next_id == old(self).next_id,
            r.options == old(self).options,
            r.state@ == old(self).state@,
            r.compaction_controller.opts() == old(self).compaction_controller.opts(),
            forall|to_bottom: bool| #[trigger] r.plan(to_bottom) == old(self).plan(to_bottom),
            forall|t: TaskView| #[trigger] r.outcome(t) == old(self).outcome(t),
            forall|t: TaskView| old(self).compactable(t) ==> #[trigger] r.compactable(t),
    {
        let mut filters: Vec<CompactionFilter> = Vec::new();
        let mut i: usize = 0;
        while i < self.compaction_filters.len()
            invariant
                i <= self.compaction_filters@.len(),
                filters@.len() == i,
                forall|j: int|
                    0 <= j < i ==> (#[trigger] filters@[j]).prefix()
                        == self.compaction_filters@[j].prefix(),
            decreases self.compaction_filters@.len() - i,
        {
            match &self.compaction_filters[i] {
                CompactionFilter::Prefix(p) => {
                    filters.push(CompactionFilter::Prefix(key::copy_bytes(p.as_slice())));
                },
            }
            i += 1;
        }
        let r = LsmStorageInner {
            options: self.options,
            state: self.state.snapshot(),
            next_id: self.next_id,
            compaction_filters: filters,
            compaction_controller: CompactionController::new(self.compaction_controller.options()),
            mvcc: LsmMvccInner::new(self.mvcc.watermark()),
        };
        assert(prefixes_of(r.compaction_filters@) =~= prefixes_of(self.compaction_filters@));
        assert(r.mvcc@.watermark() == self.mvcc@.watermark());
        assert forall|to_bottom: bool| #[trigger] r.plan(to_bottom) == self.plan(to_bottom) by {}
        self.next_id = self.next_id + numbers;
        r
    }

    /// The task that compacts L0 and L1 into L1.
    pub fn full_compaction_task(&self) -> (r: CompactionTask)
        requires
            self.state@.levels.len() > 0,
        ensures
            r@ == TaskView::Full(self.state@.l0, self.state@.levels[0].1),
    {
        assert(self.state@.levels[0].1 == self.state.levels@[0].1@);
        CompactionTask::ForceFullCompaction {
            l0_sstables: ids::copy_ids(&self.state.l0_sstables),
            l1_sstables: ids::copy_ids(&self.state.levels[0].1),
        }
    }

    /// Puts the output of a full compaction in the place of the tables that were compacted, and
    /// hands out the numbers of the new tables.
    pub fn install_full_compaction(
        &mut self,
        l0_sstables: &Vec<usize>,
        l1_sstables: &Vec<usize>,
        new_ssts: &Vec<Arc<SsTable>>,
    ) -> (r: Vec<usize>)
        requires
            old(self).state.wf(),
            full_applies(old(self).state@, l0_sstables@, l1_sstables@),
            concat_iterator::all_wf(new_ssts@),
        ensures
            final(self).state.wf(),
            final(self).state@ == fully_installed(
                old(self).state@,
                l0_sstables@,
                l1_sstables@,
                concat_iterator::tables_view(new_ssts@),
            ),
            r@ == ids_of(concat_iterator::tables_view(new_ssts@)),
            *final(self) == (LsmStorageInner { state: final(self).state, ..*old(self) }),
    {
        let ghost s = self.state@;
        let mut gone: Vec<usize> = ids::copy_ids(l0_sstables);
        ids::extend_ids(&mut gone, l1_sstables.as_slice());
        forget_tables(&mut self.state, &gone);
        let new_ids: Vec<usize> = store_tables(&mut self.state, new_ssts);
        self.state.l0_sstables = ids::remove_ids(&self.state.l0_sstables, l0_sstables);
        assert(self.state@.levels == s.levels);
        self.state.levels[0].1 = ids::copy_ids(&new_ids);
        assert(self.state@ =~= fully_installed(
            s,
            l0_sstables@,
            l1_sstables@,
            concat_iterator::tables_view(new_ssts@),
        ));
        new_ids
    }

    /// Compacts L0 and L1 into L1.
    pub fn force_full_compaction(&mut self) -> (r: Result<CompactionDone, StorageError>)
        requires
            old(self).state@.levels.len() > 0,
            full_applies(old(self).state@, old(self).state@.l0, old(self).state@.levels[0].1),
            old(self).compactable(
                TaskView::Full(old(self).state@.l0, old(self).state@.levels[0].1),
            ),
        ensures
            ({
                let s = old(self).state@;
                let t = TaskView::Full(s.l0, s.levels[0].1);
                let out = old(self).outcome(t);
                let new = tables_from(out, old(self).next_id as int);
                &&& final(self).state.wf()
                &&& *final(self) == (LsmStorageInner {
                    next_id: (old(self).next_id + out.tables.len()) as usize,
                    state: final(self).state,
                    ..*old(self)
                })
                &&& match r {
                    Ok(done) => {
                        &&& out.fault is None
                        &&& final(self).state@ == fully_installed(s, s.l0, s.levels[0].1, new)
                        &&& done.task@ == t
                        &&& done.output@ == ids_of(new)
                        &&& done.removed@ == s.l0 + s.levels[0].1
                    },
                    Err(e) => out.fault == Some(e) && final(self).state@ == s,
                }
            }),
    {
        let ghost s = self.state@;
        let task = self.full_compaction_task();
        let new_ssts = match self.compact(&task) {
            Ok(ts) => ts,
            Err(e) => {
                return Err(e);
            },
        };
        proof {
            lemma_built_views(new_ssts@, old(self).outcome(task@), old(self).next_id as int);
        }
        let mut removed: Vec<usize> = Vec::new();
        let mut output: Vec<usize> = Vec::new();
        match &task {
            CompactionTask::ForceFullCompaction { l0_sstables, l1_sstables } => {
                ids::extend_ids(&mut removed, l0_sstables.as_slice());
                ids::extend_ids(&mut removed, l1_sstables.as_slice());
                assert(removed@ =~= s.l0 + s.levels[0].1);
                output = self.install_full_compaction(l0_sstables, l1_sstables, &new_ssts);
            },
            _ => {},
        }
        Ok(CompactionDone { task, output, removed })
    }

    /// The task that is due, if any.
    pub fn due_compaction(&self) -> (r: Option<CompactionTask>)
        requires
            choosable(self.compaction_controller.opts(), self.state@),
        ensures
            match r {
                Some(t) => task_for(self.compaction_controller.opts(), self.state@) == Some(t@),
                None => task_for(self.compaction_controller.opts(), self.state@) is None,
            },
    {
        self.compaction_controller.generate_compaction_task(&self.state)
    }

    /// Puts the output of a task in the place of its tables, and hands out the numbers of the new
    /// tables and of those that are no longer needed.
    pub fn install_compaction(
        &mut self,
        task: &CompactionTask,
        new_ssts: &Vec<Arc<SsTable>>,
    ) -> (r: (Vec<usize>, Vec<usize>))
        requires
            old(self).state.wf(),
            concat_iterator::all_wf(new_ssts@),
            ({
                let new = concat_iterator::tables_view(new_ssts@);
                let s = old(self).state@;
                applicable(
                    old(self).compaction_controller.opts(),
                    (StateView { tables: stored(s.tables, new), ..s }),
                    task@,
                    ids_of(new),
                    false,
                )
            }),
        ensures
            ({
                let new = concat_iterator::tables_view(new_ssts@);
                let s = old(self).state@;
                &&& final(self).state.wf()
                &&& final(self).state@ == installed(s, task@, new)
                &&& r.0@ == ids_of(new)
                &&& r.1@ == replaced_files((StateView { tables: stored(s.tables, new), ..s }), task@)
                &&& *final(self) == (LsmStorageInner { state: final(self).state, ..*old(self) })
            }),
    {
        let mut snapshot = self.state.snapshot();
        let output: Vec<usize> = store_tables(&mut snapshot, new_ssts);
        let (mut new_snapshot, files_to_remove): (LsmStorageState, Vec<usize>) =
            self.compaction_controller.apply_compaction_result(
            &snapshot,
            task,
            output.as_slice(),
            false,
        );
        forget_tables(&mut new_snapshot, &files_to_remove);
        self.state = new_snapshot;
        (output, files_to_remove)
    }

    /// The state for which a compaction can be triggered: a task can be chosen, and the tables of
    /// the task that is due can be compacted. The tiers of a task are told apart by their numbers.
    pub open spec fn triggerable(&self) -> bool {
        &&& self.state.wf()
        &&& choosable(self.compaction_controller.opts(), self.state@)
        &&& task_for(self.compaction_controller.opts(), self.state@) matches Some(t) ==> {
            &&& self.compactable(t)
            &&& t matches TaskView::Tiered(tiers) ==> tiered::tiered_applies(self.state@, tiers)
        }
    }

    /// Compacts what is due, if anything is.
    pub fn trigger_compaction(&mut self) -> (r: Result<Option<CompactionDone>, StorageError>)
        requires
            old(self).triggerable(),
        ensures
            final(self).state.wf(),
            match task_for(old(self).compaction_controller.opts(), old(self).state@) {
                None => r == Ok::<Option<CompactionDone>, StorageError>(None) && *final(self)
                    == *old(self),
                Some(t) => {
                    let s = old(self).state@;
                    let out = old(self).outcome(t);
                    let new = tables_from(out, old(self).next_id as int);
                    &&& *final(self) == (LsmStorageInner {
                        next_id: (old(self).next_id + out.tables.len()) as usize,
                        state: final(self).state,
                        ..*old(self)
                    })
                    &&& match r {
                        Ok(done) => {
                            &&& out.fault is None
                            &&& final(self).state@ == installed(s, t, new)
                            &&& done matches Some(d)
                            &&& d.task@ == t
                            &&& d.output@ == ids_of(new)
                            &&& d.removed@ == replaced_files(
                                (StateView { tables: stored(s.tables, new), ..s }),
                                t,
                            )
                        },
                        Err(e) => out.fault == Some(e) && final(self).state@ == s,
                    }
                },
            },
    {
        let ghost s = self.state@;
        let ghost o = self.compaction_controller.opts();
        let task = match self.due_compaction() {
            Some(t) => t,
            None => {
                return Ok(None);
            },
        };
        let new_ssts = match self.compact(&task) {
            Ok(ts) => ts,
            Err(e) => {
                return Err(e);
            },
        };
        proof {
            let out = old(self).outcome(task@);
            lemma_built_views(new_ssts@, out, old(self).next_id as int);
            if !(o is Tiered) {
                lemma_due_applies(o, s, concat_iterator::tables_view(new_ssts@));
            }
        }
        let (output, removed): (Vec<usize>, Vec<usize>) = self.install_compaction(&task, &new_ssts);
        Ok(Some(CompactionDone { task, output, removed }))
    }

    /// Whether a memtable is to be flushed while there are `imm_memtables` immutable ones.
    pub fn trigger_flush(&self, imm_memtables: usize) -> (r: bool)
        ensures
            r == (imm_memtables >= self.options.num_memtable_limit),
    {
        imm_memtables >= self.options.num_memtable_limit
    }

    /// Whether compaction runs in the background.
    pub fn compacts_in_background(&self) -> (r: bool)
        ensures
            r == !(self.options.compaction_options is NoCompaction),
    {
        match self.options.compaction_options {
            CompactionOptions::NoCompaction => false,
            _ => true,
        }
    }
}

/// The tables that an output becomes, with numbers from `first` on.
pub open spec fn tables_from(out: Output, first: int) -> Seq<TableView> {
    Seq::new(out.tables.len(), |i: int| builder::built((first + i) as usize, out.tables[i]))
}

/// By what rules a compaction runs. Its watermark is the least time that is being read, and the last
/// commit time where nothing is being read, so that no reader loses a version; it drops by the prefix
/// of every filter, and by no other; the sizes are those of the options.
pub proof fn lemma_plan(inner: LsmStorageInner, to_bottom: bool)
    ensures
        ({
            let p = inner.plan(to_bottom);
            let v = inner.mvcc@;
            &&& p.rules.to_bottom == to_bottom
            &&& forall|ts: u64| #[trigger]
                v.readers.dom().contains(ts) ==> p.rules.watermark <= ts
            &&& v.readers.dom().contains(p.rules.watermark) || (p.rules.watermark == v.latest
                && forall|ts: u64| !#[trigger] v.readers.dom().contains(ts))
            &&& p.rules.prefixes.len() == inner.compaction_filters@.len()
            &&& forall|i: int|
                0 <= i < inner.compaction_filters@.len() ==> (
                #[trigger] inner.compaction_filters@[i] matches CompactionFilter::Prefix(b)
                    && p.rules.prefixes[i] == b@)
            &&& p.block_size == inner.options.block_size
            &&& p.target_size == inner.options.target_sst_size
        }),
{
    let v = inner.mvcc@;
    mvcc::lemma_watermark_exactly(v);
    if exists|ts: u64| #[trigger] v.readers.dom().contains(ts) {
        assert(v.readers.dom().contains(v.watermark()));
    }
}

/// A compaction runs without marks of deletions exactly if its task says that its output is the last
/// level; a full compaction always does.
pub proof fn lemma_bottom(inner: LsmStorageInner, t: TaskView)
    ensures
        source(inner.state@, t) matches Ok(s) ==> inner.outcome(t) == inner.plan(
            match t {
                TaskView::Leveled(l) => l.to_bottom,
                TaskView::Simple(l) => l.to_bottom,
                TaskView::Tiered(l) => l.bottom_included,
                TaskView::Full(_, _) => true,
            },
        ).output(s),
        source(inner.state@, t) matches Err(e) ==> inner.outcome(t).fault == Some(e)
            && inner.outcome(t).tables.len() == 0,
{
}

/// Each way of compacting chooses by its own rules, and without one nothing is ever chosen.
pub proof fn lemma_task_for(o: CompactionOptions, s: StateView)
    ensures
        match o {
            CompactionOptions::Leveled(p) => match leveled::leveled_task(s, p) {
                Some(t) => task_for(o, s) == Some(TaskView::Leveled(t)),
                None => task_for(o, s) is None,
            },
            CompactionOptions::Tiered(p) => match tiered::tiered_task(s, p) {
                Some(t) => task_for(o, s) == Some(TaskView::Tiered(t)),
                None => task_for(o, s) is None,
            },
            CompactionOptions::Simple(p) => match simple_leveled::simple_task(s, p) {
                Some(t) => task_for(o, s) == Some(TaskView::Simple(t)),
                None => task_for(o, s) is None,
            },
            CompactionOptions::NoCompaction => task_for(o, s) is None,
        },
{
}

/// New tables have consecutive numbers, and each is built from its part of the output.
pub proof fn lemma_numbered(out: Output, first: int, i: int)
    requires
        0 <= first,
        first + out.tables.len() <= usize::MAX,
        0 <= i < out.tables.len(),
    ensures
        tables_from(out, first).len() == out.tables.len(),
        tables_from(out, first)[i].id == first + i,
        tables_from(out, first)[i].data == Some(builder::file_bytes(out.tables[i])),
        ids_of(tables_from(out, first)).len() == out.tables.len(),
        ids_of(tables_from(out, first))[i] == first + i,
{
}

/// A compaction that succeeds hands out one table for each part of its output, with consecutive
/// numbers from the next free one on, and these numbers are used up. Neither that nor an error
/// changes the tables that are known.
pub proof fn lemma_written(
    before: LsmStorageInner,
    after: LsmStorageInner,
    out: Output,
    r: Result<Vec<Arc<SsTable>>, StorageError>,
    i: int,
)
    requires
        written(before, after, out, r),
        before.next_id + out.tables.len() <= usize::MAX,
    ensures
        after.next_id == before.next_id + out.tables.len(),
        after.state == before.state,
        after.options == before.options,
        after.mvcc == before.mvcc,
        r is Ok <==> out.fault is None,
        r matches Err(e) ==> out.fault == Some(e),
        r matches Ok(ts) ==> {
            &&& ts@.len() == out.tables.len()
            &&& 0 <= i < ts@.len() ==> {
                &&& ts@[i].wf()
                &&& ts@[i]@.id == before.next_id + i
                &&& ts@[i]@ == builder::built((before.next_id + i) as usize, out.tables[i])
            }
        },
{
    if let Ok(ts) = r {
        if 0 <= i < ts@.len() {
            assert(built_table(ts@[i], out.tables[i], before.next_id + i));
        }
    }
}

/// A state with all levels, and without L0 tables where tiers are used, is one that a task can be
/// chosen from; without a way of compacting there is none.
pub proof fn lemma_choosable(o: CompactionOptions, s: StateView)
    ensures
        match o {
            CompactionOptions::Simple(p) => s.levels.len() >= p.max_levels && s.levels.len() >= 1
                ==> choosable(o, s),
            CompactionOptions::Tiered(p) => s.l0.len() == 0 && s.levels.len() > 0
                && tiered::tables_in(s.levels).len() <= usize::MAX ==> choosable(o, s),
            CompactionOptions::Leveled(p) => ({
                &&& 1 <= p.max_levels <= s.levels.len()
                &&& p.level_size_multiplier > 0
                &&& p.level0_file_num_compaction_trigger > 0
                &&& p.base_level_size_mb * 1048576 <= usize::MAX
                &&& s.knows(s.l0)
                &&& forall|i: int|
                    0 <= i < s.levels.len() ==> s.knows((#[trigger] s.levels[i]).1)
                        && leveled::bytes_in(s.tables, s.levels[i].1) <= usize::MAX
            }) ==> choosable(o, s),
            CompactionOptions::NoCompaction => !choosable(o, s),
        },
{
    match o {
        CompactionOptions::Simple(p) => {
            if s.levels.len() >= p.max_levels && s.levels.len() >= 1 {
                lemma_levels_from(s, p, 1);
            }
        },
        CompactionOptions::Tiered(_) => {
            tiered::lemma_tier_sum(s.levels);
        },
        CompactionOptions::Leveled(p) => {
            assert forall|i: int|
                0 <= i < s.levels.len() && s.knows((#[trigger] s.levels[i]).1) && leveled::bytes_in(
                    s.tables,
                    s.levels[i].1,
                ) <= usize::MAX implies leveled::level_known(s, i) by {
                leveled::lemma_size_of(s.tables, s.levels[i].1);
            }
        },
        CompactionOptions::NoCompaction => {},
    }
}

proof fn lemma_levels_from(s: StateView, o: SimpleLeveledCompactionOptions, i: int)
    requires
        s.levels.len() >= o.max_levels,
        i >= 1,
    ensures
        simple_leveled::levels_from(s, o, i),
    decreases o.max_levels - i,
{
    if i < o.max_levels {
        lemma_levels_from(s, o, i + 1);
    }
}

/// Storing tables puts each of them under its number, the last one where several have one number, and
/// changes nothing under other numbers.
pub proof fn lemma_stored_exactly(m: Map<usize, TableView>, ts: Seq<TableView>, id: usize, i: int)
    ensures
        0 <= i < ts.len() && ts[i].id == id && (forall|j: int|
            i < j < ts.len() ==> (#[trigger] ts[j]).id != id) ==> stored(m, ts).dom().contains(id)
            && stored(m, ts)[id] == ts[i],
        (forall|j: int| 0 <= j < ts.len() ==> (#[trigger] ts[j]).id != id) ==> (stored(
            m,
            ts,
        ).dom().contains(id) <==> m.dom().contains(id)) && (m.dom().contains(id) ==> stored(m, ts)[id]
            == m[id]),
    decreases ts.len(),
{
    if ts.len() > 0 {
        let init = ts.drop_last();
        let n = ts.len() - 1;
        lemma_stored_exactly(m, init, id, i);
        let none_behind = forall|j: int| i < j < ts.len() ==> (#[trigger] ts[j]).id != id;
        let none = forall|j: int| 0 <= j < ts.len() ==> (#[trigger] ts[j]).id != id;
        if 0 <= i < n && none_behind {
            assert(ts[n].id != id);
            assert forall|j: int| i < j < init.len() implies (#[trigger] init[j]).id != id by {
                assert(ts[j].id != id);
            }
        }
        if none {
            assert(ts[n].id != id);
            assert forall|j: int| 0 <= j < init.len() implies (#[trigger] init[j]).id != id by {
                assert(ts[j].id != id);
            }
        }
    }
}

/// What is left when a task between two levels is finished: the tables of the task are forgotten, the
/// new ones and all others are known.
pub proof fn lemma_installed_tables(
    s: StateView,
    t: TaskView,
    upper: Seq<usize>,
    lower: Seq<usize>,
    new: Seq<TableView>,
    id: usize,
)
    requires
        match t {
            TaskView::Simple(l) => l.upper == upper && l.lower == lower,
            TaskView::Leveled(l) => l.upper == upper && l.lower == lower,
            _ => false,
        },
        forall|i: int|
            0 <= i < new.len() ==> !upper.contains((#[trigger] new[i]).id) && !lower.contains(
                new[i].id,
            ),
    ensures
        ({
            let r = installed(s, t, new).tables;
            let made = exists|i: int| 0 <= i < new.len() && (#[trigger] new[i]).id == id;
            &&& r.dom().contains(id) <==> made || (s.tables.dom().contains(id) && !upper.contains(
                id,
            ) && !lower.contains(id))
            &&& r.dom().contains(id) && !made ==> r[id] == s.tables[id]
        }),
{
    lemma_stored_exactly(s.tables, new, id, 0);
    lemma_stored_known(s.tables, new);
    let gone = upper + lower;
    assert(gone.to_set().contains(id) <==> upper.contains(id) || lower.contains(id)) by {
        if upper.contains(id) {
            let i = choose|i: int| 0 <= i < upper.len() && upper[i] == id;
            assert(gone[i] == id);
        }
        if lower.contains(id) {
            let i = choose|i: int| 0 <= i < lower.len() && lower[i] == id;
            assert(gone[upper.len() + i] == id);
        }
        if gone.contains(id) {
            let i = choose|i: int| 0 <= i < gone.len() && gone[i] == id;
            if i < upper.len() {
                assert(upper[i] == id);
            } else {
                assert(lower[i - upper.len()] == id);
            }
        }
    }
}

/// Where the tables stand when a task is finished: as its way of compacting puts the numbers of the
/// new ones.
pub proof fn lemma_installed_places(s: StateView, t: TaskView, new: Seq<TableView>)
    ensures
        ({
            let known = StateView { tables: stored(s.tables, new), ..s };
            let made = new.map_values(|x: TableView| x.id);
            let r = installed(s, t, new);
            match t {
                TaskView::Simple(l) => {
                    let p = simple_leveled::simple_applied(known, l, made);
                    r.l0 == p.l0 && r.levels == p.levels
                },
                TaskView::Leveled(l) => {
                    let p = leveled::leveled_applied(known, l, made, false);
                    r.l0 == p.l0 && r.levels == p.levels
                },
                TaskView::Tiered(l) => {
                    let p = tiered::tiered_applied(known, l, made);
                    r.l0 == p.l0 && r.levels == p.levels
                },
                TaskView::Full(_, _) => r.l0 == s.l0 && r.levels == s.levels,
            }
        }),
{
    assert(ids_of(new) =~= new.map_values(|x: TableView| x.id));
}

/// A full compaction leaves in L0 what came to it meanwhile, in its order, and in L1 exactly the new
/// tables; the levels below stay as they were. The tables that were merged are forgotten.
pub proof fn lemma_full_exactly(
    s: StateView,
    l0: Seq<usize>,
    l1: Seq<usize>,
    new: Seq<TableView>,
    i: int,
    id: usize,
)
    requires
        s.levels.len() > 0,
        s.l0.no_duplicates(),
        0 <= i < s.levels.len(),
    ensures
        ({
            let r = fully_installed(s, l0, l1, new);
            let made = exists|j: int| 0 <= j < new.len() && (#[trigger] new[j]).id == id;
            &&& r.l0 == s.l0.filter(|x: usize| !l0.contains(x))
            &&& r.levels.len() == s.levels.len()
            &&& r.levels[i].0 == s.levels[i].0
            &&& i > 0 ==> r.levels[i].1 == s.levels[i].1
            &&& r.levels[0].1 == new.map_values(|x: TableView| x.id)
            &&& r.tables.dom().contains(id) <==> made || (s.tables.dom().contains(id)
                && !l0.contains(id) && !l1.contains(id))
            &&& r.tables.dom().contains(id) && !made ==> r.tables[id] == s.tables[id]
        }),
{
    let gone = l0 + l1;
    let left = s.tables.remove_keys(gone.to_set());
    lemma_stored_exactly(left, new, id, 0);
    lemma_stored_known(left, new);
    assert(ids_of(new) =~= new.map_values(|x: TableView| x.id));
    ids::lemma_without(s.l0, l0.to_set());
    assert((|x: usize| !l0.to_set().contains(x)) =~= (|x: usize| !l0.contains(x)));
    assert(gone.to_set().contains(id) <==> l0.contains(id) || l1.contains(id)) by {
        if l0.contains(id) {
            let j = choose|j: int| 0 <= j < l0.len() && l0[j] == id;
            assert(gone[j] == id);
        }
        if l1.contains(id) {
            let j = choose|j: int| 0 <= j < l1.len() && l1[j] == id;
            assert(gone[l0.len() + j] == id);
        }
        if gone.contains(id) {
            let j = choose|j: int| 0 <= j < gone.len() && gone[j] == id;
            if j < l0.len() {
                assert(l0[j] == id);
            } else {
                assert(l1[j - l0.len()] == id);
            }
        }
    }
}

/// Several sources open together exactly if each of them opens; otherwise the first one that does not
/// gives the error.
pub proof fn lemma_first_fault(ss: Seq<Stream>)
    ensures
        first_fault(ss) is None <==> forall|i: int|
            0 <= i < ss.len() ==> (#[trigger] ss[i]).landed() is Ok,
        first_fault(ss) matches Some(e) ==> exists|i: int|
            0 <= i < ss.len() && (#[trigger] ss[i]).landed() == Err::<Stream, StorageError>(e) && (
            forall|j: int| 0 <= j < i ==> (#[trigger] ss[j]).landed() is Ok),
    decreases ss.len(),
{
    reveal(first_fault);
    if ss.len() > 0 {
        let rest = ss.skip(1);
        lemma_first_fault(rest);
        assert forall|i: int| 0 <= i < rest.len() implies #[trigger] rest[i] == ss[i + 1] by {}
        if let Ok(_) = ss[0].landed() {
            if first_fault(ss) is None {
                assert forall|i: int| 0 <= i < ss.len() implies (#[trigger] ss[i]).landed() is Ok by {
                    if i > 0 {
                        assert(rest[i - 1].landed() is Ok);
                    }
                }
            } else {
                let e = first_fault(ss)->0;
                let i = choose|i: int|
                    0 <= i < rest.len() && (#[trigger] rest[i]).landed() == Err::<
                        Stream,
                        StorageError,
                    >(e) && (forall|j: int| 0 <= j < i ==> (#[trigger] rest[j]).landed() is Ok);
                assert(ss[i + 1].landed() == Err::<Stream, StorageError>(e));
                assert forall|j: int| 0 <= j < i + 1 implies (#[trigger] ss[j]).landed() is Ok by {
                    if j > 0 {
                        assert(rest[j - 1].landed() is Ok);
                    }
                }
            }
        } else {
            assert(ss[0].landed() is Err);
        }
    }
}

/// All of the tables are read to the end without an error.
pub open spec fn whole_tables(s: StateView, list: Seq<usize>) -> bool {
    forall|i: int|
        0 <= i < list.len() ==> table_iterator::table_stream(
            s.tables[#[trigger] list[i]],
        ).fault is None
}

proof fn lemma_joined_whole(ts: Seq<TableView>, i: int)
    requires
        0 <= i,
        concat_iterator::tables_from(ts, i).fault is None,
    ensures
        forall|j: int|
            i <= j < ts.len() ==> table_iterator::table_stream(#[trigger] ts[j]).fault is None,
    decreases ts.len() - i,
{
    if i < ts.len() {
        lemma_joined_whole(ts, i + 1);
    }
}

proof fn lemma_listed_whole(s: StateView, list: Seq<usize>)
    ensures
        joined_tables(tables_of(s, list)) matches Ok(a) ==> a.wf() && (a.fault is None
            ==> whole_tables(s, list)),
        merged_tables(tables_of(s, list)) matches Ok(a) ==> a.wf() && (a.fault is None
            ==> whole_tables(s, list)),
{
    let ts = tables_of(s, list);
    reveal(joined_tables);
    reveal(merged_tables);
    if joined_tables(ts) matches Ok(a) && a.fault is None {
        lemma_joined_whole(ts, 0);
        assert forall|i: int| 0 <= i < list.len() implies table_iterator::table_stream(
            s.tables[#[trigger] list[i]],
        ).fault is None by {
            assert(ts[i] == s.tables[list[i]]);
        }
    }
    let ss = table_streams(ts);
    lemma_streams_whole(ss);
    if merged_tables(ts) matches Ok(a) && a.fault is None {
        assert forall|i: int| 0 <= i < list.len() implies table_iterator::table_stream(
            s.tables[#[trigger] list[i]],
        ).fault is None by {
            assert(ss[i].fault is None);
        }
    }
}

proof fn lemma_streams_whole(ss: Seq<Stream>)
    ensures
        merged_source(ss) matches Ok(a) ==> a.wf() && (a.fault is None ==> forall|i: int|
            0 <= i < ss.len() ==> (#[trigger] ss[i]).fault is None),
{
    reveal(merged_source);
    if merged_source(ss) is Ok {
        lemma_first_fault(ss);
        assert forall|i: int| 0 <= i < ss.len() implies (#[trigger] ss[i]).wf() by {
            assert(ss[i].landed() is Ok);
        }
        merge_iterator::lemma_merged_wf(ss);
        merge_iterator::lemma_merged_fault(ss);
    }
}

proof fn lemma_pair_whole(a: Stream, b: Stream)
    requires
        a.wf(),
        b.wf(),
        merge_iterator::merged(seq![a, b]).fault is None,
    ensures
        a.fault is None,
        b.fault is None,
{
    let ss = seq![a, b];
    merge_iterator::lemma_merged_fault(ss);
    assert(ss[0].fault is None && ss[1].fault is None);
}

/// No error of a table is passed over: where the tables of a task are merged to the end without an
/// error, every one of them was read to the end without an error.
pub proof fn lemma_source_whole(s: StateView, t: TaskView)
    requires
        source(s, t) matches Ok(a) && a.fault is None,
    ensures
        match t {
            TaskView::Full(l0, l1) => whole_tables(s, l0) && whole_tables(s, l1),
            TaskView::Simple(l) => whole_tables(s, l.upper) && whole_tables(s, l.lower),
            TaskView::Leveled(l) => whole_tables(s, l.upper) && whole_tables(s, l.lower),
            TaskView::Tiered(l) => forall|i: int|
                0 <= i < l.tiers.len() ==> whole_tables(s, (#[trigger] l.tiers[i]).1),
        },
{
    match t {
        TaskView::Full(l0, l1) => {
            lemma_listed_whole(s, l0);
            lemma_listed_whole(s, l1);
            lemma_pair_whole(
                merged_tables(tables_of(s, l0))->Ok_0,
                joined_tables(tables_of(s, l1))->Ok_0,
            );
        },
        TaskView::Simple(l) => {
            lemma_level_whole(s, l);
        },
        TaskView::Leveled(l) => {
            lemma_level_whole(s, l);
        },
        TaskView::Tiered(l) => {
            let ss = tier_streams(s, l.tiers);
            lemma_streams_whole(ss);
            assert forall|i: int| 0 <= i < l.tiers.len() implies whole_tables(
                s,
                (#[trigger] l.tiers[i]).1,
            ) by {
                let list = l.tiers[i].1;
                let ts = tables_of(s, list);
                assert(ss[i].fault is None);
                lemma_joined_whole(ts, 0);
                assert forall|j: int| 0 <= j < list.len() implies table_iterator::table_stream(
                    s.tables[#[trigger] list[j]],
                ).fault is None by {
                    assert(ts[j] == s.tables[list[j]]);
                }
            }
        },
    }
}

proof fn lemma_level_whole(s: StateView, l: LevelTaskView)
    requires
        level_source(s, l) matches Ok(a) && a.fault is None,
    ensures
        whole_tables(s, l.upper),
        whole_tables(s, l.lower),
{
    lemma_listed_whole(s, l.lower);
    lemma_listed_whole(s, l.upper);
    let b = joined_tables(tables_of(s, l.lower))->Ok_0;
    let a = if l.upper_level is Some {
        joined_tables(tables_of(s, l.upper))->Ok_0
    } else {
        merged_tables(tables_of(s, l.upper))->Ok_0
    };
    lemma_pair_whole(a, b);
}

proof fn lemma_built_views(ts: Seq<Arc<SsTable>>, out: Output, first: int)
    requires
        built_tables(ts, out, first),
    ensures
        concat_iterator::tables_view(ts) == tables_from(out, first),
        concat_iterator::all_wf(ts),
{
    assert forall|i: int| 0 <= i < ts.len() implies ts[i]@ == tables_from(out, first)[i] && (
    #[trigger] ts[i]).wf() by {
        assert(built_table(ts[i], out.tables[i], first + i));
    }
    assert(concat_iterator::tables_view(ts) =~= tables_from(out, first));
}

proof fn lemma_stored_known(m: Map<usize, TableView>, ts: Seq<TableView>)
    ensures
        m.dom().subset_of(stored(m, ts).dom()),
        forall|i: int| 0 <= i < ts.len() ==> stored(m, ts).dom().contains((#[trigger] ts[i]).id),
    decreases ts.len(),
{
    if ts.len() > 0 {
        let init = ts.drop_last();
        lemma_stored_known(m, init);
        assert forall|i: int| 0 <= i < ts.len() implies stored(m, ts).dom().contains(
            (#[trigger] ts[i]).id,
        ) by {
            if i < init.len() {
                assert(init[i] == ts[i]);
            }
        }
    }
}

/// The task that is due applies once its output is known. Tiers have to have different numbers.
pub proof fn lemma_due_applies(o: CompactionOptions, s: StateView, new: Seq<TableView>)
    requires
        choosable(o, s),
        o is Tiered ==> tiered::distinct(s.levels),
        task_for(o, s) is Some,
    ensures
        applicable(
            o,
            (StateView { tables: stored(s.tables, new), ..s }),
            task_for(o, s)->0,
            ids_of(new),
            false,
        ),
{
    let now = StateView { tables: stored(s.tables, new), ..s };
    let none = Seq::<usize>::empty();
    lemma_stored_known(s.tables, new);
    assert(none + s.l0 =~= s.l0);
    match o {
        CompactionOptions::Leveled(o) => {
            assert forall|i: int| 0 <= i < ids_of(new).len() implies now.tables.dom().contains(
                #[trigger] ids_of(new)[i],
            ) by {
                assert(now.tables.dom().contains(new[i].id));
            }
            leveled::lemma_leveled_task_applies(s, o, now, none, ids_of(new), false);
        },
        CompactionOptions::Simple(o) => {
            simple_leveled::lemma_simple_task_applies(s, o, none);
        },
        CompactionOptions::Tiered(o) => {
            let no_tiers = Seq::<(usize, Seq<usize>)>::empty();
            assert(no_tiers + s.levels =~= s.levels);
            tiered::lemma_tiered_task_applies(s, o, no_tiers);
        },
        CompactionOptions::NoCompaction => {},
    }
}

} // verus!
