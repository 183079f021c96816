//! The state of the storage.

use std::collections::HashMap;
use std::sync::Arc;

use vstd::prelude::*;

use crate::compact::ids;
use crate::compact::{CompactionController, CompactionOptions};
use crate::key;
use crate::mvcc::LsmMvccInner;
use crate::table::{SsTable, TableView};

verus! {

/// The mathematical value of the state.
#[verifier::ext_equal]
pub struct StateView {
    pub l0: Seq<usize>,
    pub levels: Seq<(usize, Seq<usize>)>,
    pub tables: Map<usize, TableView>,
}

impl StateView {
    /// All tables with the given numbers are known.
    pub open spec fn knows(self, sst_ids: Seq<usize>) -> bool {
        forall|i: int| 0 <= i < sst_ids.len() ==> self.tables.dom().contains(#[trigger] sst_ids[i])
    }

    /// The state with other tables in a level.
    pub open spec fn with_level(self, i: int, sst_ids: Seq<usize>) -> StateView {
        StateView { levels: self.levels.update(i, (self.levels[i].0, sst_ids)), ..self }
    }

    /// The state with other tables in L0.
    pub open spec fn with_l0(self, sst_ids: Seq<usize>) -> StateView {
        StateView { l0: sst_ids, ..self }
    }
}

/// Levels or tiers: a number and the tables in each.
pub open spec fn levels_view(levels: Seq<(usize, Vec<usize>)>) -> Seq<(usize, Seq<usize>)> {
    Seq::new(levels.len(), |i: int| (levels[i].0, levels[i].1@))
}

/// Tables by their numbers.
pub open spec fn tables_by_id(m: Map<usize, Arc<SsTable>>) -> Map<usize, TableView> {
    m.map_values(|t: Arc<SsTable>| t@)
}

/// Which tables there are, and where they stand.
pub struct LsmStorageState {
    /// The tables of L0, from the newest to the oldest.
    pub l0_sstables: Vec<usize>,
    /// The tables of the levels in key order: L1 to the last level for leveled compaction, or the
    /// tiers from the newest to the oldest for tiered compaction.
    pub levels: Vec<(usize, Vec<usize>)>,
    /// The tables.
    pub sstables: HashMap<usize, Arc<SsTable>>,
}

impl View for LsmStorageState {
    type V = StateView;

    open spec fn view(&self) -> StateView {
        StateView {
            l0: self.l0_sstables@,
            levels: levels_view(self.levels@),
            tables: tables_by_id(self.sstables@),
        }
    }
}

impl LsmStorageState {
    /// The tables are well-formed.
    pub open spec fn wf(&self) -> bool {
        forall|id: usize| #[trigger] self.sstables@.dom().contains(id) ==> self.sstables@[id].wf()
    }

    /// The table with the given number.
    pub fn table(&self, id: usize) -> (r: Option<&Arc<SsTable>>)
        ensures
            match r {
                Some(t) => {
                    &&& self@.tables.dom().contains(id)
                    &&& t@ == self@.tables[id]
                    &&& self.wf() ==> t.wf()
                },
                None => !self@.tables.dom().contains(id),
            },
    {
        broadcast use vstd::std_specs::hash::group_hash_axioms;

        self.sstables.get(&id)
    }

    /// A copy of the state.
    pub fn snapshot(&self) -> (r: Self)
        ensures
            r@ == self@,
            self.wf() ==> r.wf(),
    {
        broadcast use vstd::std_specs::hash::group_hash_axioms;

        LsmStorageState {
            l0_sstables: ids::copy_ids(&self.l0_sstables),
            levels: ids::copy_levels(&self.levels, self.levels.len()),
            sstables: self.sstables.clone(),
        }
    }
}

/// Keys that compaction drops.
#[derive(Debug)]
pub enum CompactionFilter {
    /// The keys that begin with the prefix.
    Prefix(Vec<u8>),
}

impl CompactionFilter {
    /// The prefix of the keys that are dropped.
    pub open spec fn prefix(&self) -> Seq<u8> {
        match self {
            CompactionFilter::Prefix(p) => p@,
        }
    }

    /// Whether a key is dropped.
    pub fn matches(&self, k: &[u8]) -> (r: bool)
        ensures
            r == self.prefix().is_prefix_of(k@),
    {
        match self {
            CompactionFilter::Prefix(p) => {
                if k.len() < p.len() {
                    return false;
                }
                let front: &[u8] = vstd::slice::slice_subrange(k, 0, p.len());
                key::bytes_eq(p.as_slice(), front)
            },
        }
    }
}

/// The options of the storage.
#[derive(Debug, Clone, Copy)]
pub struct LsmStorageOptions {
    /// The size of a block in bytes.
    pub block_size: usize,
    /// The size of a table in bytes that compaction aims at.
    pub target_sst_size: usize,
    /// The number of memtables in memory from which on one is flushed.
    pub num_memtable_limit: usize,
    /// How to compact.
    pub compaction_options: CompactionOptions,
}

/// The storage.
pub struct LsmStorageInner {
    pub options: LsmStorageOptions,
    pub state: LsmStorageState,
    /// The number of the next table.
    pub next_id: usize,
    pub compaction_filters: Vec<CompactionFilter>,
    pub compaction_controller: CompactionController,
    pub mvcc: LsmMvccInner,
}

} // verus!
