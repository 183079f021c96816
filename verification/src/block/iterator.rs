//! Walking through the entries of a block.

use std::sync::Arc;

use vstd::prelude::*;

use super::Block;
use crate::block;
use crate::codec::{put_slice, read_u16, read_u64};
use crate::key;
use crate::key::{Entry, Key, KeySlice, KeyVec};

verus! {

/// The position of the first entry whose key is not before `key`.
pub open spec fn lower_bound(es: Seq<Entry>, key: Key) -> int
    decreases es.len(),
{
    if es.len() == 0 || !key::key_lt(es[0].key, key) {
        0
    } else {
        1 + lower_bound(es.skip(1), key)
    }
}

/// Before that position every key precedes `key`, and the key there does not.
pub proof fn lemma_lower_bound(es: Seq<Entry>, key: Key)
    ensures
        0 <= lower_bound(es, key) <= es.len(),
        forall|i: int| 0 <= i < lower_bound(es, key) ==> key::key_lt(#[trigger] es[i].key, key),
        lower_bound(es, key) < es.len() ==> !key::key_lt(es[lower_bound(es, key)].key, key),
    decreases es.len(),
{
    if es.len() > 0 && key::key_lt(es[0].key, key) {
        lemma_lower_bound(es.skip(1), key);
        assert forall|i: int| 0 <= i < lower_bound(es, key) implies key::key_lt(
            #[trigger] es[i].key,
            key,
        ) by {
            if i > 0 {
                assert(es.skip(1)[i - 1] == es[i]);
            }
        }
    }
}

/// In sorted entries the position parts those before `key` from the others.
pub proof fn lemma_lower_bound_sorted(es: Seq<Entry>, key: Key)
    requires
        key::sorted(es),
    ensures
        forall|i: int|
            0 <= i < es.len() ==> (i < lower_bound(es, key) <==> key::key_lt(
                #[trigger] es[i].key,
                key,
            )),
{
    lemma_lower_bound(es, key);
    let n = lower_bound(es, key);
    assert forall|i: int| n <= i < es.len() implies !key::key_lt(#[trigger] es[i].key, key) by {
        if key::key_lt(es[i].key, key) && n < i {
            key::lemma_key_lt_transitive(es[n].key, es[i].key, key);
        }
    }
}

/// The position in a concatenation.
pub proof fn lemma_lower_bound_concat(a: Seq<Entry>, b: Seq<Entry>, key: Key)
    ensures
        lower_bound(a + b, key) == if lower_bound(a, key) == a.len() {
            a.len() + lower_bound(b, key)
        } else {
            lower_bound(a, key)
        },
    decreases a.len(),
{
    if a.len() == 0 {
        assert(a + b =~= b);
    } else {
        assert((a + b).skip(1) =~= a.skip(1) + b);
        lemma_lower_bound_concat(a.skip(1), b, key);
    }
}

/// Iterates over the entries of a block.
pub struct BlockIterator {
    /// The block.
    block: Arc<Block>,
    /// The current key. An empty key says that the iterator is not on an entry.
    key: KeyVec,
    /// Where the current value stands in the data of the block.
    value_range: (usize, usize),
    /// The position of the current entry.
    idx: usize,
    /// The first key of the block.
    first_key: KeyVec,
}

impl BlockIterator {
    /// The entries of the block.
    pub closed spec fn entries(&self) -> Seq<Entry> {
        self.block@
    }

    /// The entries from the current one on.
    pub closed spec fn remaining(&self) -> Seq<Entry> {
        if self.key@.key.len() == 0 {
            Seq::empty()
        } else {
            self.block@.skip(self.idx as int)
        }
    }

    /// The iterator is on the entry that its key and value come from, or on none.
    pub closed spec fn wf(&self) -> bool {
        &&& self.block.wf()
        &&& self.value_range.0 <= self.value_range.1 <= self.block.data@.len()
        &&& self.idx <= self.block@.len()
        &&& self.key@.key.len() > 0 ==> {
            &&& self.idx < self.block@.len()
            &&& self.key@ == self.block@[self.idx as int].key
            &&& self.first_key@.key == block::raw_first(self.block.data@, self.block.offsets@)
            &&& self.block.data@.subrange(self.value_range.0 as int, self.value_range.1 as int)
                == self.block@[self.idx as int].value
        }
    }

    fn new(block: Arc<Block>) -> (r: Self)
        requires
            block.wf(),
        ensures
            r.wf(),
            r.entries() == block@,
            r.remaining() == Seq::<Entry>::empty(),
    {
        BlockIterator {
            block,
            key: KeyVec::new(),
            value_range: (0, 0),
            idx: 0,
            first_key: KeyVec::new(),
        }
    }

    /// Decodes the key and the value at `idx`.
    fn decode_at(&mut self, idx: usize)
        requires
            old(self).block.wf(),
            idx < old(self).block@.len(),
            idx > 0 ==> old(self).first_key@.key == block::raw_first(
                old(self).block.data@,
                old(self).block.offsets@,
            ),
        ensures
            final(self).block == old(self).block,
            final(self).idx == old(self).idx,
            final(self).first_key == old(self).first_key,
            final(self).key@ == old(self).block@[idx as int].key,
            final(self).key@.key.len() > 0,
            final(self).value_range.0 <= final(self).value_range.1 <= old(self).block.data@.len(),
            old(self).block.data@.subrange(
                final(self).value_range.0 as int,
                final(self).value_range.1 as int,
            ) == old(self).block@[idx as int].value,
    {
        let ghost d = self.block.data@;
        let ghost first = block::raw_first(d, self.block.offsets@);
        proof {
            assert(block::entry_fits(d, self.block.offsets@[0] as int, 0));
            assert(block::entry_fits(d, self.block.offsets@[idx as int] as int, first.len() as int));
        }
        let offset: usize = self.block.offsets[idx] as usize;
        let data: &[u8] = self.block.data.as_slice();
        let overlap: usize = read_u16(data, offset) as usize;
        let rest_len: usize = read_u16(data, offset + 2) as usize;
        let rest_start: usize = offset + 4;
        let rest_end: usize = rest_start + rest_len;
        let mut bytes: Vec<u8> = key::copy_bytes(
            vstd::slice::slice_subrange(self.first_key.key.as_slice(), 0, overlap),
        );
        put_slice(&mut bytes, vstd::slice::slice_subrange(data, rest_start, rest_end));
        let ts: u64 = read_u64(data, rest_end);
        let value_len: usize = read_u16(data, rest_end + 8) as usize;
        let value_start: usize = rest_end + 10;
        proof {
            assert(bytes@ =~= self.block@[idx as int].key.key);
        }
        self.key = KeyVec::from_vec_with_ts(bytes, ts);
        self.value_range = (value_start, value_start + value_len);
    }

    /// Creates an iterator on the first entry.
    pub fn create_and_seek_to_first(block: Arc<Block>) -> (r: Self)
        requires
            block.wf(),
        ensures
            r.wf(),
            r.entries() == block@,
            r.remaining() == block@,
    {
        let mut iter = Self::new(block);
        iter.seek_to_first();
        iter
    }

    /// Creates an iterator on the first entry whose key is not before `key`.
    pub fn create_and_seek_to_key(block: Arc<Block>, key: KeySlice<'_>) -> (r: Self)
        requires
            block.wf(),
        ensures
            r.wf(),
            r.entries() == block@,
            r.remaining() == block@.skip(lower_bound(block@, key@)),
    {
        let mut iter = Self::new(block);
        iter.seek_to_key(key);
        iter
    }

    /// The key of the current entry, and the empty key when the iterator is on none.
    pub fn key(&self) -> (r: KeySlice<'_>)
        requires
            self.wf(),
        ensures
            self.remaining().len() > 0 ==> r@ == self.remaining()[0].key,
            self.remaining().len() == 0 ==> r@.key.len() == 0,
    {
        self.key.as_key_slice()
    }

    /// The value of the current entry.
    pub fn value(&self) -> (r: &[u8])
        requires
            self.wf(),
        ensures
            self.remaining().len() > 0 ==> r@ == self.remaining()[0].value,
    {
        vstd::slice::slice_subrange(self.block.data.as_slice(), self.value_range.0, self.value_range.1)
    }

    /// Whether the iterator is on an entry.
    pub fn is_valid(&self) -> (r: bool)
        requires
            self.wf(),
        ensures
            r == (self.remaining().len() > 0),
    {
        !self.key.is_empty()
    }

    /// Moves to the first entry of the block.
    pub fn seek_to_first(&mut self)
        requires
            old(self).wf(),
        ensures
            final(self).wf(),
            final(self).entries() == old(self).entries(),
            final(self).remaining() == old(self).entries(),
    {
        if self.block.offsets.len() == 0 {
            assert(self.remaining() =~= self.entries());
            return;
        }
        self.idx = 0;
        self.first_key = KeyVec::new();
        self.decode_at(0);
        self.first_key = self.key.clone();
        proof {
            let d = self.block.data@;
            let o = self.block.offsets@[0] as int;
            assert(block::entry_fits(d, o, 0));
            assert(self.first_key@.key =~= block::raw_first(d, self.block.offsets@));
            assert(self.block@.skip(0) =~= self.block@);
        }
    }

    /// Moves to the next entry of the block.
    pub fn next(&mut self)
        requires
            old(self).wf(),
        ensures
            final(self).wf(),
            final(self).entries() == old(self).entries(),
            old(self).remaining().len() > 0 ==> final(self).remaining() == old(self).remaining().skip(
                1,
            ),
            old(self).remaining().len() == 0 ==> final(self).remaining().len() == 0,
    {
        if self.key.is_empty() {
            return;
        }
        assert(self.idx < self.block.offsets.len());
        self.idx += 1;
        if self.idx >= self.block.offsets.len() {
            self.key = KeyVec::new();
            assert(self.remaining() =~= old(self).remaining().skip(1));
        } else {
            self.decode_at(self.idx);
            assert(self.remaining() =~= old(self).remaining().skip(1));
        }
    }

    /// Moves to the first entry whose key is not before `key`.
    pub fn seek_to_key(&mut self, key: KeySlice<'_>)
        requires
            old(self).wf(),
        ensures
            final(self).wf(),
            final(self).entries() == old(self).entries(),
            final(self).remaining() == old(self).entries().skip(
                lower_bound(old(self).entries(), key@),
            ),
    {
        self.seek_to_first();
        let ghost es = self.entries();
        let ghost mut n: int = 0;
        assert(es.skip(0) =~= es);
        while self.is_valid() && self.key.as_key_slice().precedes(key)
            invariant
                self.wf(),
                self.entries() == es,
                0 <= n <= es.len(),
                self.remaining() == es.skip(n),
                lower_bound(es, key@) == n + lower_bound(es.skip(n), key@),
            decreases es.len() - n,
        {
            assert(es.skip(n).skip(1) =~= es.skip(n + 1));
            self.next();
            proof {
                n = n + 1;
            }
        }
        assert(lower_bound(es.skip(n), key@) == 0);
    }
}

} // verus!
