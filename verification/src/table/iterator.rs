//! Iterating over the entries of a table.

use std::collections::HashMap;
use std::sync::Arc;

use vstd::prelude::*;

use super::builder;
use super::{SsTable, TableView};
use crate::block;
use crate::block::iterator as block_iterator;
use crate::block::iterator::BlockIterator;
use crate::block::Block;
use crate::error::StorageError;
use crate::iterators::{StorageIterator, Stream};
use crate::key;
use crate::key::{Entry, Key, KeySlice};

verus! {

/// What is left when `current` is left of a block and `tail` stands behind the block.
pub open spec fn joined(current: Seq<Entry>, tail: Stream) -> Stream {
    if current.len() == 0 {
        Stream::ended()
    } else {
        tail.after(current)
    }
}

/// What a search for `key` that begins in block `i` comes to.
pub open spec fn sought(t: TableView, i: int, key: Key) -> Result<Stream, StorageError> {
    match t.block(i) {
        Err(e) => Err(e),
        Ok(es) => t.tail(i + 1).after(es.skip(block_iterator::lower_bound(es, key))).landed(),
    }
}

/// What an iterator on the first entry of a table hands out, or the error that the first block
/// gives.
pub open spec fn table_stream(t: TableView) -> Stream {
    match t.block(0) {
        Err(e) => Stream { entries: Seq::empty(), fault: Some(e) },
        Ok(es) => joined(es, t.tail(1)),
    }
}

/// What an iterator over a table hands out has keys and values of representable lengths.
pub proof fn lemma_table_stream_valid(t: TableView)
    ensures
        block::valid_entries(table_stream(t).entries),
{
    super::lemma_tail_valid(t, 0);
    super::lemma_tail_valid(t, 1);
    if t.block(0) is Ok {
        block::lemma_valid_concat(t.block(0)->Ok_0, t.tail(1).entries);
    }
}

/// The table can be read, its blocks have entries, the metadata gives their first keys, and the
/// entries are sorted.
pub open spec fn laid_out(t: TableView) -> bool {
    &&& forall|i: int| 0 <= i < t.metas.len() ==> #[trigger] block_laid_out(t, i)
    &&& key::sorted(t.tail(0).entries)
}

pub open spec fn block_laid_out(t: TableView, i: int) -> bool {
    &&& t.block(i) matches Ok(es)
    &&& es.len() > 0
    &&& t.metas[i].first_key == es[0].key
}

spec fn before(t: TableView, i: int) -> Seq<Entry>
    decreases i,
{
    if i <= 0 {
        Seq::empty()
    } else {
        before(t, i - 1) + t.block(i - 1)->Ok_0
    }
}

proof fn lemma_tail_split(t: TableView, i: int)
    requires
        laid_out(t),
        0 <= i <= t.metas.len(),
    ensures
        t.tail(0).entries == before(t, i) + t.tail(i).entries,
        t.tail(0).fault == t.tail(i).fault,
    decreases i,
{
    if i > 0 {
        lemma_tail_split(t, i - 1);
        assert(block_laid_out(t, i - 1));
        assert(before(t, i) + t.tail(i).entries =~= before(t, i - 1) + t.tail(i - 1).entries);
    } else {
        assert(before(t, 0) + t.tail(0).entries =~= t.tail(0).entries);
    }
}

/// On a well laid out table a search finds exactly the entries whose keys are not before `key`.
pub proof fn lemma_sought_laid_out(t: TableView, i: int, key: Key)
    requires
        laid_out(t),
        t.metas.len() > 0,
        t.search_block(key, i),
    ensures
        sought(t, i, key) == Ok::<Stream, StorageError>(
            (Stream {
                entries: t.tail(0).entries.skip(
                    block_iterator::lower_bound(t.tail(0).entries, key),
                ),
                fault: None,
            }),
        ),
{
    let n = t.metas.len() as int;
    let all = t.tail(0).entries;
    let p = before(t, i);
    assert(block_laid_out(t, i));
    let e = t.block(i)->Ok_0;
    let r = t.tail(i + 1).entries;
    lemma_tail_split(t, i);
    lemma_tail_split(t, n);
    assert(t.tail(n).fault is None);
    lemma_tail_split(t, i + 1);
    assert(all == p + (e + r));
    assert(block_iterator::lower_bound(p, key) == p.len()) by {
        block_iterator::lemma_lower_bound(p, key);
        if block_iterator::lower_bound(p, key) < p.len() {
            let j = block_iterator::lower_bound(p, key);
            assert(all[j] == p[j]);
            assert(all[p.len() as int] == e[0]);
            assert(key::key_lt(p[j].key, e[0].key));
            if t.starts_by(i, key) {
                if e[0].key != key {
                    key::lemma_key_lt_transitive(p[j].key, e[0].key, key);
                }
            }
        }
    }
    assert(block_iterator::lower_bound(e, key) == e.len() ==> block_iterator::lower_bound(r, key)
        == 0) by {
        block_iterator::lemma_lower_bound(e, key);
        if block_iterator::lower_bound(e, key) == e.len() && r.len() > 0 {
            assert(i + 1 < n);
            assert(block_laid_out(t, i + 1));
            assert(key::key_lt(e[0].key, key));
            assert(t.starts_by(i, key));
            assert(r[0] == (t.block(i + 1)->Ok_0)[0]);
        }
    }
    block_iterator::lemma_lower_bound(e, key);
    block_iterator::lemma_lower_bound_concat(e, r, key);
    block_iterator::lemma_lower_bound_concat(p, e + r, key);
    let k = block_iterator::lower_bound(e, key);
    assert(all.skip(p.len() + k) =~= e.skip(k) + r);
}

/// An iterator over a well laid out table hands out all of its entries.
pub proof fn lemma_laid_out_stream(t: TableView)
    requires
        laid_out(t),
        t.metas.len() > 0,
    ensures
        table_stream(t) == t.tail(0),
        t.tail(0).fault is None,
{
    assert(block_laid_out(t, 0));
    lemma_tail_split(t, t.metas.len() as int);
}

/// Reading a table from the start gives all that its blocks hold, up to the first one that cannot be
/// read; where that is the first block, only its error, and nothing where the first block is empty.
pub proof fn lemma_table_stream_exactly(t: TableView)
    requires
        t.metas.len() > 0,
    ensures
        match t.block(0) {
            Ok(es) => if es.len() > 0 {
                table_stream(t) == t.tail(0)
            } else {
                table_stream(t).entries.len() == 0 && table_stream(t).fault is None
            },
            Err(e) => table_stream(t).entries.len() == 0 && table_stream(t).fault == Some(e),
        },
{
}

/// Reading on from a key gives, of the block that is searched, the entries from the first one on that
/// is not before the key, and then what the next blocks hold. An error is reported at once where it
/// comes before any entry.
pub proof fn lemma_sought_exactly(t: TableView, i: int, key: Key)
    ensures
        match t.block(i) {
            Err(e) => sought(t, i, key) == Err::<Stream, StorageError>(e),
            Ok(es) => {
                let n = block_iterator::lower_bound(es, key);
                let left = es.skip(n) + t.tail(i + 1).entries;
                &&& 0 <= n <= es.len()
                &&& forall|j: int| 0 <= j < n ==> key::key_lt((#[trigger] es[j]).key, key)
                &&& n < es.len() ==> !key::key_lt(es[n].key, key)
                &&& left.len() == 0 && t.tail(i + 1).fault is Some ==> sought(t, i, key) == Err::<
                    Stream,
                    StorageError,
                >(t.tail(i + 1).fault->0)
                &&& !(left.len() == 0 && t.tail(i + 1).fault is Some) ==> sought(t, i, key) == Ok::<
                    Stream,
                    StorageError,
                >((Stream { entries: left, fault: t.tail(i + 1).fault }))
            },
        },
{
    if let Ok(es) = t.block(i) {
        block_iterator::lemma_lower_bound(es, key);
    }
}

/// Moving on from block `i` passes over the empty blocks: it ends at the first block that has entries
/// or cannot be read, or behind the last one.
pub proof fn lemma_moved_to(t: TableView, i: int)
    requires
        0 <= i <= t.metas.len(),
    ensures
        i <= moved_to(t, i) <= t.metas.len(),
        forall|j: int|
            i <= j < moved_to(t, i) ==> (#[trigger] t.block(j)) == Ok::<Seq<Entry>, StorageError>(
                Seq::empty(),
            ),
        moved_to(t, i) < t.metas.len() ==> !(t.block(moved_to(t, i)) matches Ok(es) && es.len()
            == 0),
    decreases t.metas.len() - i,
{
    if i < t.metas.len() {
        if let Ok(es) = t.block(i) {
            if es.len() == 0 {
                assert(es =~= Seq::empty());
                lemma_moved_to(t, i + 1);
            }
        }
    }
}

/// A cache holds after a read what it held before, and the block that was read.
pub proof fn lemma_read_through(c: Map<usize, Seq<Entry>>, t: TableView, i: usize, j: usize)
    ensures
        t.block(i as int) matches Ok(es) ==> (read_through(Some(c), t, i as int) matches Some(m)
            && m.dom().contains(i) && m[i] == es && (j != i ==> (m.dom().contains(j)
            <==> c.dom().contains(j)) && m[j] == c[j])),
        t.block(i as int) is Err ==> read_through(Some(c), t, i as int) == Some(c),
        read_through(None, t, i as int) is None,
{
}

/// A built table of sorted entries is well laid out.
pub proof fn lemma_built_laid_out(id: usize, cs: Seq<Seq<Entry>>)
    requires
        builder::good_chunks(cs),
        builder::chunks_bytes(cs).len() <= 0xffff_ffff,
        key::sorted(builder::flat(cs)),
    ensures
        laid_out(builder::built(id, cs)),
        builder::built(id, cs).tail(0).entries == builder::flat(cs),
{
    let t = builder::built(id, cs);
    assert forall|i: int| 0 <= i < t.metas.len() implies #[trigger] block_laid_out(t, i) by {
        builder::lemma_built_block(id, cs, i);
    }
    builder::lemma_built_stream(id, cs, 0);
    assert(cs.skip(0) =~= cs);
}

/// The blocks in a cache, by their positions. There may be no cache.
pub open spec fn blocks_in(cache: Option<HashMap<usize, Arc<Block>>>) -> Option<
    Map<usize, Seq<Entry>>,
> {
    match cache {
        Some(m) => Some(m@.map_values(|b: Arc<Block>| b@)),
        None => None,
    }
}

/// The blocks in a cache are those of the table.
pub open spec fn cache_of(t: TableView, cache: Option<HashMap<usize, Arc<Block>>>) -> bool {
    cache matches Some(m) ==> forall|i: usize| #[trigger]
        m@.dom().contains(i) && i < t.metas.len() ==> m@[i].wf() && t.block(i as int) == Ok::<
            Seq<Entry>,
            StorageError,
        >(m@[i]@)
}

/// The blocks in a cache after block `i` was read through it.
pub open spec fn read_through(
    c: Option<Map<usize, Seq<Entry>>>,
    t: TableView,
    i: int,
) -> Option<Map<usize, Seq<Entry>>> {
    match (c, t.block(i)) {
        (Some(m), Ok(es)) => Some(m.insert(i as usize, es)),
        _ => c,
    }
}

/// The blocks in a cache after a move to the first entry from block `i` on.
pub open spec fn moved_through(
    c: Option<Map<usize, Seq<Entry>>>,
    t: TableView,
    i: int,
) -> Option<Map<usize, Seq<Entry>>>
    decreases t.metas.len() - i,
{
    if i >= t.metas.len() {
        c
    } else {
        match t.block(i) {
            Ok(es) => if es.len() > 0 {
                read_through(c, t, i)
            } else {
                moved_through(read_through(c, t, i), t, i + 1)
            },
            Err(_) => c,
        }
    }
}

/// The first block from block `i` on that has entries or cannot be read, and the number of blocks
/// where there is none.
pub open spec fn moved_to(t: TableView, i: int) -> int
    decreases t.metas.len() - i,
{
    if i >= t.metas.len() {
        i
    } else {
        match t.block(i) {
            Ok(es) => if es.len() > 0 {
                i
            } else {
                moved_to(t, i + 1)
            },
            Err(_) => i,
        }
    }
}

/// The block that a search for `key` comes to, where block `i`, in which it begins, can be read.
pub open spec fn sought_in(t: TableView, i: int, key: Key) -> int {
    let es = t.block(i)->Ok_0;
    if block_iterator::lower_bound(es, key) < es.len() {
        i
    } else {
        moved_to(t, i + 1)
    }
}

/// The blocks in a cache after a search for `key` that begins in block `i`.
pub open spec fn sought_through(
    c: Option<Map<usize, Seq<Entry>>>,
    t: TableView,
    i: int,
    key: Key,
) -> Option<Map<usize, Seq<Entry>>> {
    match t.block(i) {
        Ok(es) => if block_iterator::lower_bound(es, key) < es.len() {
            read_through(c, t, i)
        } else {
            moved_through(read_through(c, t, i), t, i + 1)
        },
        Err(_) => c,
    }
}

/// Reads a block through a cache.
fn read_cached(
    table: &Arc<SsTable>,
    cache: &mut Option<HashMap<usize, Arc<Block>>>,
    blk_idx: usize,
) -> (r: Result<Arc<Block>, StorageError>)
    requires
        table.wf(),
        blk_idx < table@.metas.len(),
        cache_of(table@, *old(cache)),
    ensures
        cache_of(table@, *final(cache)),
        blocks_in(*final(cache)) == read_through(blocks_in(*old(cache)), table@, blk_idx as int),
        match r {
            Ok(b) => b.wf() && table@.block(blk_idx as int) == Ok::<Seq<Entry>, StorageError>(b@),
            Err(e) => table@.block(blk_idx as int) == Err::<Seq<Entry>, StorageError>(e),
        },
{
    broadcast use vstd::std_specs::hash::group_hash_axioms;

    match cache.take() {
        None => {
            assert(blocks_in(*cache) == blocks_in(*old(cache)));
            match table.read_block_cached(blk_idx, None) {
                Ok((block, _fresh)) => Ok(block),
                Err(e) => Err(e),
            }
        },
        Some(mut held) => {
            let ghost was = held@;
            let cached: Option<Arc<Block>> = match held.get(&blk_idx) {
                Some(b) => Some(b.clone()),
                None => None,
            };
            match table.read_block_cached(blk_idx, cached) {
                Ok((block, fresh)) => {
                    if fresh {
                        held.insert(blk_idx, block.clone());
                    }
                    proof {
                        let f = |b: Arc<Block>| b@;
                        assert(was.insert(blk_idx, block).map_values(f) =~= was.map_values(
                            f,
                        ).insert(blk_idx, block@));
                        assert(was.dom().contains(blk_idx) ==> was =~= was.insert(blk_idx, block));
                    }
                    *cache = Some(held);
                    Ok(block)
                },
                Err(e) => {
                    *cache = Some(held);
                    Err(e)
                },
            }
        },
    }
}

/// Iterates over the entries of a table. It reads blocks through a cache where it was given one.
pub struct SsTableIterator {
    table: Arc<SsTable>,
    blk_iter: BlockIterator,
    blk_idx: usize,
    cache: Option<HashMap<usize, Arc<Block>>>,
}

impl SsTableIterator {
    /// The table.
    pub closed spec fn table(&self) -> TableView {
        self.table@
    }

    /// What is left of the current block.
    pub closed spec fn current(&self) -> Seq<Entry> {
        self.blk_iter.remaining()
    }

    /// The position of the block that the iterator came to.
    pub closed spec fn place(&self) -> int {
        self.blk_idx as int
    }

    /// The blocks in the cache.
    pub closed spec fn cached(&self) -> Option<Map<usize, Seq<Entry>>> {
        blocks_in(self.cache)
    }

    fn seek_to_block_idx(
        table: &Arc<SsTable>,
        cache: &mut Option<HashMap<usize, Arc<Block>>>,
        blk_idx: usize,
    ) -> (r: Result<BlockIterator, StorageError>)
        requires
            table.wf(),
            blk_idx < table@.metas.len(),
            cache_of(table@, *old(cache)),
        ensures
            cache_of(table@, *final(cache)),
            blocks_in(*final(cache)) == read_through(
                blocks_in(*old(cache)),
                table@,
                blk_idx as int,
            ),
            match r {
                Ok(b) => b.wf() && table@.block(blk_idx as int) == Ok::<Seq<Entry>, StorageError>(
                    b.remaining(),
                ),
                Err(e) => table@.block(blk_idx as int) == Err::<Seq<Entry>, StorageError>(e),
            },
    {
        match read_cached(table, cache, blk_idx) {
            Ok(block) => Ok(BlockIterator::create_and_seek_to_first(block)),
            Err(e) => Err(e),
        }
    }

    /// Creates an iterator on the first entry of the first block, without a cache.
    pub fn create_and_seek_to_first(table: Arc<SsTable>) -> (r: Result<Self, StorageError>)
        requires
            table.wf(),
            table@.metas.len() > 0,
        ensures
            match r {
                Ok(it) => {
                    &&& it.wf()
                    &&& it.table() == table@
                    &&& table_stream(table@).landed() == Ok::<Stream, StorageError>(it.stream())
                    &&& it.place() == 0
                    &&& it.cached() is None
                },
                Err(e) => table_stream(table@).landed() == Err::<Stream, StorageError>(e),
            },
    {
        Self::create_and_seek_to_first_cached(table, None)
    }

    /// Creates an iterator on the first entry of the first block. It reads blocks through the given
    /// cache, if there is one.
    pub fn create_and_seek_to_first_cached(
        table: Arc<SsTable>,
        cache: Option<HashMap<usize, Arc<Block>>>,
    ) -> (r: Result<Self, StorageError>)
        requires
            table.wf(),
            table@.metas.len() > 0,
            cache_of(table@, cache),
        ensures
            match r {
                Ok(it) => {
                    &&& it.wf()
                    &&& it.table() == table@
                    &&& table_stream(table@).landed() == Ok::<Stream, StorageError>(it.stream())
                    &&& it.place() == 0
                    &&& it.cached() == read_through(blocks_in(cache), table@, 0)
                },
                Err(e) => table_stream(table@).landed() == Err::<Stream, StorageError>(e),
            },
    {
        let mut held = cache;
        match Self::seek_to_block_idx(&table, &mut held, 0) {
            Ok(blk_iter) => Ok(SsTableIterator { table, blk_iter, blk_idx: 0, cache: held }),
            Err(e) => Err(e),
        }
    }

    /// Moves to the first entry of the first block. Where that block cannot be read, the iterator
    /// stays on its entry and goes on with the second block afterwards.
    pub fn seek_to_first(&mut self) -> (r: Result<(), StorageError>)
        requires
            old(self).wf(),
            old(self).table().metas.len() > 0,
        ensures
            final(self).wf(),
            final(self).table() == old(self).table(),
            final(self).place() == 0,
            final(self).cached() == read_through(old(self).cached(), old(self).table(), 0),
            match old(self).table().block(0) {
                Ok(es) => r == Ok::<(), StorageError>(()) && final(self).stream() == joined(
                    es,
                    old(self).table().tail(1),
                ),
                Err(e) => r == Err::<(), StorageError>(e) && final(self).stream() == joined(
                    old(self).current(),
                    old(self).table().tail(1),
                ),
            },
    {
        self.blk_idx = 0;
        match Self::seek_to_block_idx(&self.table, &mut self.cache, 0) {
            Ok(blk_iter) => {
                self.blk_iter = blk_iter;
                Ok(())
            },
            Err(e) => Err(e),
        }
    }

    /// Creates an iterator on the first entry whose key is not before `key`, without a cache.
    pub fn create_and_seek_to_key(table: Arc<SsTable>, key: KeySlice<'_>) -> (r: Result<
        Self,
        StorageError,
    >)
        requires
            table.wf(),
            table@.metas.len() > 0,
        ensures
            exists|i: int| #[trigger]
                table@.search_block(key@, i) && match r {
                    Ok(it) => {
                        &&& it.wf()
                        &&& it.table() == table@
                        &&& sought(table@, i, key@) == Ok::<Stream, StorageError>(it.stream())
                        &&& it.place() == sought_in(table@, i, key@)
                        &&& it.cached() is None
                    },
                    Err(e) => sought(table@, i, key@) == Err::<Stream, StorageError>(e),
                },
    {
        let r = Self::create_and_seek_to_key_cached(table, key, None);
        proof {
            let i = choose|i: int| #[trigger]
                table@.search_block(key@, i) && match r {
                    Ok(it) => {
                        &&& it.wf()
                        &&& it.table() == table@
                        &&& sought(table@, i, key@) == Ok::<Stream, StorageError>(it.stream())
                        &&& it.place() == sought_in(table@, i, key@)
                        &&& it.cached() == sought_through(
                            blocks_in(None),
                            table@,
                            i,
                            key@,
                        )
                    },
                    Err(e) => sought(table@, i, key@) == Err::<Stream, StorageError>(e),
                };
            lemma_without_cache(table@, i + 1);
            assert(table@.search_block(key@, i));
        }
        r
    }

    /// Creates an iterator on the first entry whose key is not before `key`. It reads blocks through
    /// the given cache, if there is one.
    pub fn create_and_seek_to_key_cached(
        table: Arc<SsTable>,
        key: KeySlice<'_>,
        cache: Option<HashMap<usize, Arc<Block>>>,
    ) -> (r: Result<Self, StorageError>)
        requires
            table.wf(),
            table@.metas.len() > 0,
            cache_of(table@, cache),
        ensures
            exists|i: int| #[trigger]
                table@.search_block(key@, i) && match r {
                    Ok(it) => {
                        &&& it.wf()
                        &&& it.table() == table@
                        &&& sought(table@, i, key@) == Ok::<Stream, StorageError>(it.stream())
                        &&& it.place() == sought_in(table@, i, key@)
                        &&& it.cached() == sought_through(blocks_in(cache), table@, i, key@)
                    },
                    Err(e) => sought(table@, i, key@) == Err::<Stream, StorageError>(e),
                },
    {
        let blk_idx: usize = table.find_block_idx(key);
        assert(table@.search_block(key@, blk_idx as int));
        let ghost i = blk_idx as int;
        let ghost t = table@;
        let mut held = cache;
        let block = match read_cached(&table, &mut held, blk_idx) {
            Ok(block) => block,
            Err(e) => {
                assert(sought(t, i, key@) == Err::<Stream, StorageError>(e));
                return Err(e);
            },
        };
        let blk_iter = BlockIterator::create_and_seek_to_key(block, key);
        let ghost rem = blk_iter.remaining();
        proof {
            block_iterator::lemma_lower_bound(block@, key@);
        }
        let mut iter = SsTableIterator { table, blk_iter, blk_idx, cache: held };
        if !iter.blk_iter.is_valid() {
            assert(t.tail(i + 1).after(rem) =~= t.tail(i + 1));
            match iter.advance_to_next_block() {
                Ok(()) => {},
                Err(e) => {
                    assert(sought(t, i, key@) == Err::<Stream, StorageError>(e));
                    return Err(e);
                },
            }
        }
        assert(sought(t, i, key@) == Ok::<Stream, StorageError>(iter.stream()));
        Ok(iter)
    }

    /// Moves to the first entry whose key is not before `key`. Where the block that the search
    /// begins in cannot be read, the iterator stays where it is. Where a later block cannot be
    /// read, nothing is left.
    pub fn seek_to_key(&mut self, key: KeySlice<'_>) -> (r: Result<(), StorageError>)
        requires
            old(self).wf(),
            old(self).table().metas.len() > 0,
        ensures
            final(self).wf(),
            final(self).table() == old(self).table(),
            exists|i: int| #[trigger]
                old(self).table().search_block(key@, i) && final(self).cached() == sought_through(
                    old(self).cached(),
                    old(self).table(),
                    i,
                    key@,
                ) && final(self).place() == (if old(self).table().block(i) is Err {
                    old(self).place()
                } else {
                    sought_in(old(self).table(), i, key@)
                }) && match sought(old(self).table(), i, key@) {
                    Ok(s) => r == Ok::<(), StorageError>(()) && final(self).stream() == s,
                    Err(e) => {
                        &&& r == Err::<(), StorageError>(e)
                        &&& final(self).stream() == if old(self).table().block(i) is Err {
                            old(self).stream()
                        } else {
                            Stream::ended()
                        }
                    },
                },
    {
        let blk_idx: usize = self.table.find_block_idx(key);
        let ghost i = blk_idx as int;
        let ghost t = self.table();
        assert(t.search_block(key@, i));
        let block = match read_cached(&self.table, &mut self.cache, blk_idx) {
            Ok(block) => block,
            Err(e) => {
                assert(sought(t, i, key@) == Err::<Stream, StorageError>(e));
                return Err(e);
            },
        };
        self.blk_idx = blk_idx;
        self.blk_iter = BlockIterator::create_and_seek_to_key(block, key);
        let ghost rem = self.blk_iter.remaining();
        proof {
            block_iterator::lemma_lower_bound(block@, key@);
        }
        if !self.blk_iter.is_valid() {
            assert(t.tail(i + 1).after(rem) =~= t.tail(i + 1));
            match self.advance_to_next_block() {
                Ok(()) => {},
                Err(e) => {
                    assert(sought(t, i, key@) == Err::<Stream, StorageError>(e));
                    return Err(e);
                },
            }
        }
        assert(sought(t, i, key@) == Ok::<Stream, StorageError>(self.stream()));
        Ok(())
    }

    fn advance_to_next_block(&mut self) -> (r: Result<(), StorageError>)
        requires
            old(self).wf(),
            old(self).blk_idx < old(self).table@.metas.len(),
            old(self).blk_iter.remaining().len() == 0,
        ensures
            final(self).wf(),
            final(self).table@ == old(self).table@,
            final(self).cached() == moved_through(
                old(self).cached(),
                old(self).table@,
                old(self).blk_idx + 1,
            ),
            final(self).place() == moved_to(old(self).table@, old(self).blk_idx + 1),
            match old(self).table@.tail(old(self).blk_idx + 1).landed() {
                Ok(s) => r == Ok::<(), StorageError>(()) && final(self).stream() == s,
                Err(e) => r == Err::<(), StorageError>(e) && final(self).stream()
                    == Stream::ended(),
            },
    {
        let ghost t = self.table@;
        let n: usize = self.table.num_of_blocks();
        self.blk_idx += 1;
        while self.blk_idx < n
            invariant
                self.wf(),
                self.table@ == t,
                t == old(self).table@,
                n == t.metas.len(),
                self.blk_idx <= n,
                self.blk_iter.remaining().len() == 0,
                t.tail(old(self).blk_idx + 1) == t.tail(self.blk_idx as int),
                moved_to(t, old(self).blk_idx + 1) == moved_to(t, self.blk_idx as int),
                moved_through(old(self).cached(), t, old(self).blk_idx + 1) == moved_through(
                    self.cached(),
                    t,
                    self.blk_idx as int,
                ),
            decreases n - self.blk_idx,
        {
            let block = match read_cached(&self.table, &mut self.cache, self.blk_idx) {
                Ok(block) => block,
                Err(e) => {
                    return Err(e);
                },
            };
            self.blk_iter = BlockIterator::create_and_seek_to_first(block);
            if self.blk_iter.is_valid() {
                return Ok(());
            }
            assert(t.tail(self.blk_idx + 1).after(block@) =~= t.tail(self.blk_idx + 1));
            self.blk_idx += 1;
        }
        Ok(())
    }

    /// Ends the iterator and hands out the blocks in its cache.
    pub fn into_cache(self) -> (r: Option<HashMap<usize, Arc<Block>>>)
        requires
            self.wf(),
        ensures
            blocks_in(r) == self.cached(),
            cache_of(self.table(), r),
    {
        self.cache
    }
}

proof fn lemma_without_cache(t: TableView, i: int)
    ensures
        moved_through(None, t, i) is None,
    decreases t.metas.len() - i,
{
    if i < t.metas.len() {
        lemma_without_cache(t, i + 1);
    }
}

impl StorageIterator for SsTableIterator {
    closed spec fn wf(&self) -> bool {
        &&& self.table.wf()
        &&& self.blk_iter.wf()
        &&& self.blk_idx <= self.table@.metas.len()
        &&& self.blk_iter.remaining().len() > 0 ==> self.blk_idx < self.table@.metas.len()
        &&& cache_of(self.table@, self.cache)
    }

    closed spec fn stream(&self) -> Stream {
        joined(self.blk_iter.remaining(), self.table@.tail(self.blk_idx + 1))
    }

    open spec fn tolerant(&self) -> bool {
        false
    }

    open spec fn active_after(&self, n: nat) -> nat {
        1
    }

    proof fn lemma_stream_wf(&self) {
    }

    fn key(&self) -> (r: KeySlice<'_>) {
        self.blk_iter.key()
    }

    fn value(&self) -> (r: &[u8]) {
        self.blk_iter.value()
    }

    fn is_valid(&self) -> (r: bool) {
        self.blk_iter.is_valid()
    }

    fn next(&mut self) -> (r: Result<(), StorageError>)
        ensures
            final(self).table() == old(self).table(),
            final(self).cached() == if old(self).current().len() > 1 {
                old(self).cached()
            } else {
                moved_through(old(self).cached(), old(self).table(), old(self).place() + 1)
            },
            final(self).place() == if old(self).current().len() > 1 {
                old(self).place()
            } else {
                moved_to(old(self).table(), old(self).place() + 1)
            },
    {
        let ghost cur = self.blk_iter.remaining();
        let ghost tail = self.table@.tail(self.blk_idx + 1);
        self.blk_iter.next();
        if !self.blk_iter.is_valid() {
            assert(cur.len() == 1);
            assert(tail.after(cur).entries.skip(1) =~= tail.entries);
            return self.advance_to_next_block();
        }
        assert(tail.after(cur).entries.skip(1) =~= cur.skip(1) + tail.entries);
        Ok(())
    }

    fn num_active_iterators(&self) -> (r: usize) {
        1
    }
}

} // verus!
