//! Building a block entry by entry.

use vstd::prelude::*;

use super::Block;
use crate::block;
use crate::codec;
use crate::codec::{put_slice, put_u16, put_u64};
use crate::key::{Entry, KeySlice, KeyVec};

verus! {

/// Whether an entry with a key of `key_len` bytes and a value of `value_len` bytes is taken into a
/// block that aims at `block_size` bytes and holds `es` so far. An empty block takes any entry.
pub open spec fn has_room(es: Seq<Entry>, block_size: int, key_len: int, value_len: int) -> bool {
    let data_len = block::block_data(es).len();
    es.len() == 0 || (data_len <= 0xffff && 2 + 2 * es.len() + data_len + key_len + value_len + 14
        <= block_size)
}

/// An empty block has room for any entry. Another one has room exactly if its bytes so far, the key,
/// the value and the fourteen bytes that an entry needs besides do not exceed the block size, as long
/// as the place of the entry can be told in two bytes.
pub proof fn lemma_room(es: Seq<Entry>, block_size: int, key_len: int, value_len: int)
    requires
        es.len() <= 0xffff,
    ensures
        es.len() == 0 ==> has_room(es, block_size, key_len, value_len),
        es.len() > 0 ==> (has_room(es, block_size, key_len, value_len) <==> block::block_bytes(
            es,
        ).len() + key_len + value_len + 14 <= block_size && block::block_bytes(es).len() - 2 * es.len()
            - 2 <= 0xffff),
{
    block::lemma_raw_block_round_trip(block::block_data(es), block::block_offsets(es));
}

/// Builds a block.
pub struct BlockBuilder {
    offsets: Vec<u16>,
    data: Vec<u8>,
    block_size: usize,
    first_key: KeyVec,
    entries: Ghost<Seq<Entry>>,
}

impl View for BlockBuilder {
    type V = Seq<Entry>;

    closed spec fn view(&self) -> Seq<Entry> {
        self.entries@
    }
}

fn count_common_prefix(a: &[u8], b: &[u8]) -> (r: usize)
    ensures
        r == block::common_prefix(a@, b@),
{
    let mut i: usize = 0;
    assert(a@.skip(0) =~= a@);
    assert(b@.skip(0) =~= b@);
    while i < a.len() && i < b.len() && a[i] == b[i]
        invariant
            i <= a.len(),
            i <= b.len(),
            block::common_prefix(a@, b@) == i + block::common_prefix(a@.skip(i as int), b@.skip(i as int)),
        decreases a.len() - i,
    {
        assert(a@.skip(i as int).drop_first() =~= a@.skip(i + 1));
        assert(b@.skip(i as int).drop_first() =~= b@.skip(i + 1));
        i += 1;
    }
    i
}

/// Appends the bytes of an entry of a block whose first key is `first`.
fn put_entry(data: &mut Vec<u8>, first: &[u8], key: KeySlice<'_>, value: &[u8])
    ensures
        final(data)@ == old(data)@ + block::entry_bytes(first@, Entry { key: key@, value: value@ }),
{
    let ghost d0 = data@;
    let overlap: usize = count_common_prefix(first, key.key);
    proof {
        block::lemma_common_prefix(first@, key@.key);
    }
    put_u16(data, overlap as u16);
    put_u16(data, (key.key.len() - overlap) as u16);
    let rest: &[u8] = vstd::slice::slice_subrange(key.key, overlap, key.key.len());
    assert(rest@ =~= key@.key.skip(overlap as int));
    put_slice(data, rest);
    put_u64(data, key.ts);
    put_u16(data, value.len() as u16);
    put_slice(data, value);
    proof {
        let p1 = codec::be16(overlap as u16);
        let p2 = codec::be16((key.key.len() - overlap) as u16);
        let p4 = codec::be64(key.ts);
        let p5 = codec::be16(value@.len() as u16);
        assert(data@ == d0 + p1 + p2 + rest@ + p4 + p5 + value@);
        assert(d0 + p1 + p2 + rest@ + p4 + p5 + value@ =~= d0 + (p1 + (p2 + (rest@ + (p4 + (p5
            + value@))))));
    }
}

/// Adding an entry to those of a block keeps what a block builder maintains.
proof fn lemma_push(es: Seq<Entry>, e: Entry)
    requires
        block::valid_entries(es),
        block::valid_entry(e),
        block::offsets_fit(es),
        block::block_data(es).len() <= 0xffff,
        14 * es.len() <= block::block_data(es).len(),
    ensures
        ({
            let es1 = es.push(e);
            &&& block::valid_entries(es1)
            &&& block::offsets_fit(es1)
            &&& block::block_data(es1) == block::block_data(es) + block::entry_bytes(block::first_bytes(es), e)
            &&& block::block_offsets(es1) == block::block_offsets(es).push(block::block_data(es).len() as u16)
            &&& 14 * es1.len() <= block::block_data(es1).len()
            &&& es1.drop_last() == es
            &&& es1.len() <= 0xffff
        }),
{
    let es1 = es.push(e);
    assert(es1.drop_last() =~= es);
    assert forall|i: int| 0 <= i < es1.len() implies (#[trigger] block::block_data(es1.take(i))).len()
        <= 0xffff && block::block_offsets(es1)[i] == block::block_offsets(es).push(
        block::block_data(es).len() as u16,
    )[i] by {
        if i < es.len() {
            assert(es1.take(i) =~= es.take(i));
            assert(block::block_data(es.take(i)).len() <= 0xffff);
        } else {
            assert(es1.take(i) =~= es);
        }
    }
    assert forall|i: int| 0 <= i < es1.len() implies block::block_offsets(es1)[i] == block::block_offsets(
        es,
    ).push(block::block_data(es).len() as u16)[i] by {
        assert(block::block_data(es1.take(i)).len() <= 0xffff);
    }
    assert(block::block_offsets(es1) =~= block::block_offsets(es).push(block::block_data(es).len() as u16));
    assert forall|i: int| 0 <= i < es1.len() implies #[trigger] block::valid_entry(es1[i]) by {
        if i < es.len() {
            assert(block::valid_entry(es[i]));
        }
    }
    block::lemma_entry_len(block::first_bytes(es), e);
}

impl BlockBuilder {
    /// The entries are valid and the bytes are those of the entries.
    pub closed spec fn wf(&self) -> bool {
        &&& self.data@ == block::block_data(self@)
        &&& self.offsets@ == block::block_offsets(self@)
        &&& self.first_key@.key == block::first_bytes(self@)
        &&& block::valid_entries(self@)
        &&& block::offsets_fit(self@)
        &&& self@.len() <= 0xffff
        &&& 14 * self@.len() <= block::block_data(self@).len()
        &&& self@.len() > 0 ==> block::block_data(self@.drop_last()).len() <= 0xffff
    }

    /// The number of bytes that the block aims at.
    pub closed spec fn size_limit(&self) -> usize {
        self.block_size
    }

    /// What a well-formed builder holds can be read back from the block.
    pub proof fn lemma_entries(&self)
        requires
            self.wf(),
        ensures
            block::valid_entries(self@),
            block::offsets_fit(self@),
            self@.len() <= 0xffff,
            14 * self@.len() <= block::block_data(self@).len(),
    {
    }

    /// A builder without entries that aims at `block_size` bytes.
    pub fn new(block_size: usize) -> (r: Self)
        ensures
            r.wf(),
            r@ == Seq::<Entry>::empty(),
            r.size_limit() == block_size,
    {
        let r = BlockBuilder {
            offsets: Vec::new(),
            data: Vec::new(),
            block_size,
            first_key: KeyVec::new(),
            entries: Ghost(Seq::empty()),
        };
        assert(r.offsets@ =~= block::block_offsets(r@));
        r
    }

    /// Whether no entry was added.
    pub fn is_empty(&self) -> (r: bool)
        requires
            self.wf(),
        ensures
            r == (self@.len() == 0),
    {
        self.offsets.len() == 0
    }

    /// Adds an entry if there is room for it.
    pub fn add(&mut self, key: KeySlice<'_>, value: &[u8]) -> (r: bool)
        requires
            old(self).wf(),
            block::valid_entry(Entry { key: key@, value: value@ }),
        ensures
            final(self).wf(),
            final(self).size_limit() == old(self).size_limit(),
            r == has_room(
                old(self)@,
                old(self).size_limit() as int,
                key@.key.len() as int,
                value@.len() as int,
            ),
            final(self)@ == if r {
                old(self)@.push(Entry { key: key@, value: value@ })
            } else {
                old(self)@
            },
    {
        let ghost es = self.entries@;
        let ghost e = Entry { key: key@, value: value@ };
        if self.offsets.len() > 0 {
            if self.data.len() > 0xffff {
                return false;
            }
            if 2 + 2 * self.offsets.len() + self.data.len() + key.key.len() + value.len() + 14
                > self.block_size {
                return false;
            }
        }
        self.offsets.push(self.data.len() as u16);
        put_entry(&mut self.data, self.first_key.key.as_slice(), key, value);
        if self.first_key.is_empty() {
            self.first_key = key.to_key_vec();
        }
        self.entries = Ghost(es.push(e));
        proof {
            lemma_push(es, e);
            assert(es.len() > 0 ==> block::valid_entry(es[0]));
        }
        true
    }

    /// The block of the entries.
    pub fn build(self) -> (r: Block)
        requires
            self.wf(),
        ensures
            r.wf(),
            r@ == self@,
            r.bytes() == block::block_bytes(self@),
    {
        proof {
            block::lemma_block_data_entries(self@);
        }
        Block { data: self.data, offsets: self.offsets }
    }
}

} // verus!
