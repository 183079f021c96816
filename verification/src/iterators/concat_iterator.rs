//! Iterating over tables one behind the other.

use std::sync::Arc;

use vstd::prelude::*;

use super::{StorageIterator, Stream};
use crate::block;
use crate::error::StorageError;
use crate::key::{Entry, KeySlice};
use crate::table::iterator as table_iterator;
use crate::table::iterator::SsTableIterator;
use crate::table::{SsTable, TableView};

verus! {

/// The entries of the tables from table `i` on, up to the first error.
pub open spec fn tables_from(ts: Seq<TableView>, i: int) -> Stream
    decreases ts.len() - i,
{
    if i < 0 || i >= ts.len() {
        Stream::ended()
    } else {
        let s = table_iterator::table_stream(ts[i]);
        if s.fault is Some {
            s
        } else {
            tables_from(ts, i + 1).after(s.entries)
        }
    }
}

/// A stream and behind it, unless it fails, the entries of the tables from table `i` on.
pub open spec fn before_tables(s: Stream, ts: Seq<TableView>, i: int) -> Stream {
    if s.fault is Some {
        s
    } else {
        tables_from(ts, i).after(s.entries)
    }
}

/// The tables of references.
pub open spec fn tables_view(ts: Seq<Arc<SsTable>>) -> Seq<TableView> {
    Seq::new(ts.len(), |i: int| ts[i]@)
}

pub open spec fn all_wf(ts: Seq<Arc<SsTable>>) -> bool {
    forall|i: int| 0 <= i < ts.len() ==> (#[trigger] ts[i]).wf()
}

/// The tables have blocks to read.
pub open spec fn readable(ts: Seq<Arc<SsTable>>) -> bool {
    forall|i: int| 0 <= i < ts.len() ==> (#[trigger] ts[i]).wf() && ts[i]@.metas.len() > 0
}

/// What an iterator over tables hands out has keys and values of representable lengths.
pub proof fn lemma_tables_valid(ts: Seq<TableView>, i: int)
    ensures
        block::valid_entries(tables_from(ts, i).entries),
    decreases ts.len() - i,
{
    if 0 <= i < ts.len() {
        table_iterator::lemma_table_stream_valid(ts[i]);
        lemma_tables_valid(ts, i + 1);
        block::lemma_valid_concat(
            table_iterator::table_stream(ts[i]).entries,
            tables_from(ts, i + 1).entries,
        );
    }
}

/// A run of well laid out tables is read to its end.
pub proof fn lemma_run_stream(ts: Seq<TableView>, i: int)
    requires
        forall|j: int|
            0 <= j < ts.len() ==> table_iterator::laid_out(#[trigger] ts[j]) && ts[j].metas.len()
                > 0,
        0 <= i <= ts.len(),
    ensures
        tables_from(ts, i) == (Stream { entries: run_entries(ts, i), fault: None }),
    decreases ts.len() - i,
{
    if i < ts.len() {
        table_iterator::lemma_laid_out_stream(ts[i]);
        lemma_run_stream(ts, i + 1);
    }
}

/// Tables of a run are read one after the other.
pub proof fn lemma_run_entries(ts: Seq<TableView>)
    ensures
        run_entries(ts, 0) == ts.map_values(|t: TableView| t.tail(0).entries).flatten(),
{
    lemma_run_entries_from(ts, 0);
    assert(ts.skip(0) =~= ts);
}

proof fn lemma_run_entries_from(ts: Seq<TableView>, i: int)
    requires
        0 <= i <= ts.len(),
    ensures
        run_entries(ts, i) == ts.skip(i).map_values(|t: TableView| t.tail(0).entries).flatten(),
    decreases ts.len() - i,
{
    let lists = ts.skip(i).map_values(|t: TableView| t.tail(0).entries);
    if i < ts.len() {
        lemma_run_entries_from(ts, i + 1);
        assert(lists.drop_first() =~= ts.skip(i + 1).map_values(|t: TableView| t.tail(0).entries));
    } else {
        assert(lists =~= Seq::empty());
    }
}

/// A table with an error ends the reading with what it gives up to there; a table without one is
/// followed by the next.
pub proof fn lemma_tables_from(ts: Seq<TableView>, i: int)
    requires
        0 <= i,
    ensures
        i >= ts.len() ==> tables_from(ts, i).entries.len() == 0 && tables_from(ts, i).fault is None,
        i < ts.len() && table_iterator::table_stream(ts[i]).fault is Some ==> tables_from(ts, i)
            == table_iterator::table_stream(ts[i]),
        i < ts.len() && table_iterator::table_stream(ts[i]).fault is None ==> {
            &&& tables_from(ts, i).entries == table_iterator::table_stream(ts[i]).entries
                + tables_from(ts, i + 1).entries
            &&& tables_from(ts, i).fault == tables_from(ts, i + 1).fault
        },
{
}

/// The entries of tables from table `i` on, one table behind the other.
pub open spec fn run_entries(ts: Seq<TableView>, i: int) -> Seq<Entry>
    decreases ts.len() - i,
{
    if i < 0 || i >= ts.len() {
        Seq::empty()
    } else {
        ts[i].tail(0).entries + run_entries(ts, i + 1)
    }
}

/// Iterates over tables one behind the other. In a sorted run the keys of each table are behind
/// those of the one before it.
pub struct SstConcatIterator {
    current: Option<SsTableIterator>,
    next_sst_idx: usize,
    sstables: Vec<Arc<SsTable>>,
}

impl SstConcatIterator {
    /// Creates an iterator on the first entry of the first table.
    pub fn create_and_seek_to_first(sstables: Vec<Arc<SsTable>>) -> (r: Result<Self, StorageError>)
        requires
            readable(sstables@),
        ensures
            match r {
                Ok(it) => it.wf() && tables_from(tables_view(sstables@), 0).landed() == Ok::<
                    Stream,
                    StorageError,
                >(it.stream()),
                Err(e) => tables_from(tables_view(sstables@), 0).landed() == Err::<
                    Stream,
                    StorageError,
                >(e),
            },
    {
        if sstables.len() == 0 {
            return Ok(SstConcatIterator { current: None, next_sst_idx: 0, sstables });
        }
        let first = match SsTableIterator::create_and_seek_to_first(sstables[0].clone()) {
            Ok(it) => it,
            Err(e) => {
                return Err(e);
            },
        };
        let mut iter = SstConcatIterator { current: Some(first), next_sst_idx: 1, sstables };
        match iter.move_until_valid() {
            Ok(()) => Ok(iter),
            Err(e) => Err(e),
        }
    }

    spec fn tables(&self) -> Seq<TableView> {
        tables_view(self.sstables@)
    }

    /// Goes on to the first table with an entry where the current one has none left.
    fn move_until_valid(&mut self) -> (r: Result<(), StorageError>)
        requires
            old(self).wf(),
            old(self).current is Some,
        ensures
            final(self).wf(),
            match before_tables(
                old(self).current->0.stream(),
                old(self).tables(),
                old(self).next_sst_idx as int,
            ).landed() {
                Ok(s) => r == Ok::<(), StorageError>(()) && final(self).stream() == s,
                Err(e) => r == Err::<(), StorageError>(e) && final(self).stream()
                    == Stream::ended(),
            },
    {
        let ghost ts = self.tables();
        let ghost goal = before_tables(self.current->0.stream(), ts, self.next_sst_idx as int);
        loop
            invariant
                self.wf(),
                self.current is Some,
                self.tables() == ts,
                goal == before_tables(self.current->0.stream(), ts, self.next_sst_idx as int),
                goal == before_tables(
                    old(self).current->0.stream(),
                    old(self).tables(),
                    old(self).next_sst_idx as int,
                ),
            decreases self.sstables.len() - self.next_sst_idx,
        {
            let valid: bool = match &self.current {
                Some(it) => {
                    proof {
                        it.lemma_stream_wf();
                    }
                    it.is_valid()
                },
                None => false,
            };
            if valid {
                return Ok(());
            }
            assert(goal =~= tables_from(ts, self.next_sst_idx as int));
            if self.next_sst_idx >= self.sstables.len() {
                self.current = None;
                return Ok(());
            }
            match SsTableIterator::create_and_seek_to_first(
                self.sstables[self.next_sst_idx].clone(),
            ) {
                Ok(it) => {
                    self.current = Some(it);
                    self.next_sst_idx += 1;
                },
                Err(e) => {
                    return Err(e);
                },
            }
        }
    }
}

impl StorageIterator for SstConcatIterator {
    closed spec fn wf(&self) -> bool {
        &&& readable(self.sstables@)
        &&& self.next_sst_idx <= self.sstables@.len()
        &&& self.current matches Some(it) ==> it.wf()
    }

    closed spec fn stream(&self) -> Stream {
        match self.current {
            None => Stream::ended(),
            Some(it) => if it.stream().entries.len() == 0 {
                Stream::ended()
            } else {
                before_tables(it.stream(), self.tables(), self.next_sst_idx as int)
            },
        }
    }

    open spec fn tolerant(&self) -> bool {
        false
    }

    open spec fn active_after(&self, n: nat) -> nat {
        1
    }

    proof fn lemma_stream_wf(&self) {
    }

    fn is_valid(&self) -> (r: bool) {
        match &self.current {
            Some(it) => it.is_valid(),
            None => false,
        }
    }

    fn key(&self) -> (r: KeySlice<'_>) {
        match &self.current {
            Some(it) => it.key(),
            None => KeySlice::from_slice(&[], 0),
        }
    }

    fn value(&self) -> (r: &[u8]) {
        match &self.current {
            Some(it) => it.value(),
            None => &[],
        }
    }

    fn next(&mut self) -> (r: Result<(), StorageError>) {
        let ghost s = self.current->0.stream();
        let ghost tail = tables_from(self.tables(), self.next_sst_idx as int);
        match self.current.take() {
            None => Ok(()),
            Some(mut it) => {
                let moved = it.next();
                self.current = Some(it);
                match moved {
                    Ok(()) => {
                        proof {
                            if s.fault is None {
                                assert(tail.after(s.entries).entries.skip(1) =~= tail.after(
                                    s.entries.skip(1),
                                ).entries);
                            }
                        }
                        self.move_until_valid()
                    },
                    Err(e) => Err(e),
                }
            },
        }
    }

    fn num_active_iterators(&self) -> (r: usize) {
        1
    }
}

} // verus!
