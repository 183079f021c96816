//! Building a table entry by entry.

use vstd::prelude::*;

use super::bloom;
use super::bloom::{Bloom, BITS_PER_KEY};
use super::{BlockMeta, FileObject, MetaView, SsTable, TableView};
use crate::block;
use crate::block::builder as block_builder;
use crate::block::builder::BlockBuilder;
use crate::codec;
use crate::codec::{put_slice, put_u32};
use crate::error::StorageError;
use crate::hash;
use crate::iterators::Stream;
use crate::key::{Entry, KeySlice, KeyVec};
use crate::table;

verus! {

/// The bytes of a data block and its checksum.
#[verifier::opaque]
pub open spec fn chunk_bytes(es: Seq<Entry>) -> Seq<u8> {
    block::block_bytes(es) + codec::be32(hash::crc32_of(block::block_bytes(es)))
}

/// The bytes of data blocks, one behind the other.
pub open spec fn chunks_bytes(cs: Seq<Seq<Entry>>) -> Seq<u8>
    decreases cs.len(),
{
    if cs.len() == 0 {
        Seq::empty()
    } else {
        chunks_bytes(cs.drop_last()) + chunk_bytes(cs.last())
    }
}

/// The entries of data blocks, one behind the other.
pub open spec fn flat(cs: Seq<Seq<Entry>>) -> Seq<Entry>
    decreases cs.len(),
{
    if cs.len() == 0 {
        Seq::empty()
    } else {
        flat(cs.drop_last()) + cs.last()
    }
}

/// The metadata of data blocks.
pub open spec fn metas_of(cs: Seq<Seq<Entry>>) -> Seq<MetaView> {
    Seq::new(
        cs.len(),
        |i: int|
            MetaView {
                offset: chunks_bytes(cs.take(i)).len() as usize,
                first_key: cs[i][0].key,
                last_key: cs[i].last().key,
            },
    )
}

/// The hashes of the keys of entries.
pub open spec fn hashes_of(es: Seq<Entry>) -> Seq<u32> {
    Seq::new(es.len(), |i: int| hash::fingerprint32_of(es[i].key.key))
}

/// The highest timestamp of entries, and 0 without entries.
pub open spec fn max_ts_of(es: Seq<Entry>) -> u64
    decreases es.len(),
{
    if es.len() == 0 {
        0
    } else if es.last().key.ts > max_ts_of(es.drop_last()) {
        es.last().key.ts
    } else {
        max_ts_of(es.drop_last())
    }
}

/// The metadata section of a table with the given data blocks.
pub open spec fn meta_section(cs: Seq<Seq<Entry>>) -> Seq<u8> {
    table::block_meta_bytes(metas_of(cs), max_ts_of(flat(cs)))
}

/// The filter section of a table with the given data blocks.
pub open spec fn bloom_section(cs: Seq<Seq<Entry>>) -> Seq<u8> {
    bloom::bloom_bytes(bloom::bloom_of(hashes_of(flat(cs)), BITS_PER_KEY as int))
}

/// The bytes of a table with the given data blocks.
pub open spec fn file_bytes(cs: Seq<Seq<Entry>>) -> Seq<u8> {
    chunks_bytes(cs) + meta_section(cs) + bloom_section(cs) + codec::be32(
        chunks_bytes(cs).len() as u32,
    ) + codec::be32((chunks_bytes(cs) + meta_section(cs)).len() as u32)
}

/// The table with the given data blocks.
pub open spec fn built(id: usize, cs: Seq<Seq<Entry>>) -> TableView {
    TableView {
        id,
        data: Some(file_bytes(cs)),
        size: file_bytes(cs).len() as u64,
        metas: metas_of(cs),
        meta_offset: (chunks_bytes(cs).len() as u32) as usize,
        first_key: table::first_of(metas_of(cs)),
        last_key: table::last_of(metas_of(cs)),
        bloom: Some(bloom::bloom_of(hashes_of(flat(cs)), BITS_PER_KEY as int)),
        max_ts: max_ts_of(flat(cs)),
    }
}

/// A data block that a builder makes.
pub open spec fn good_chunk(es: Seq<Entry>) -> bool {
    &&& es.len() > 0
    &&& es.len() <= 0xffff
    &&& block::valid_entries(es)
    &&& block::offsets_fit(es)
}

pub open spec fn good_chunks(cs: Seq<Seq<Entry>>) -> bool {
    forall|i: int| 0 <= i < cs.len() ==> good_chunk(#[trigger] cs[i])
}

/// The mathematical value of a builder: the finished data blocks and the entries of the current
/// one.
#[verifier::ext_equal]
pub struct BuilderView {
    pub block_size: usize,
    pub done: Seq<Seq<Entry>>,
    pub cur: Seq<Entry>,
}

impl BuilderView {
    /// All entries that were added.
    pub open spec fn all(self) -> Seq<Entry> {
        flat(self.done) + self.cur
    }

    /// The data blocks of the table that is built.
    pub open spec fn chunks(self) -> Seq<Seq<Entry>> {
        if self.cur.len() == 0 {
            self.done
        } else {
            self.done.push(self.cur)
        }
    }

    /// The builder after an entry was added.
    pub open spec fn added(self, e: Entry) -> BuilderView {
        if block_builder::has_room(
            self.cur,
            self.block_size as int,
            e.key.key.len() as int,
            e.value.len() as int,
        ) {
            BuilderView { cur: self.cur.push(e), ..self }
        } else {
            BuilderView { done: self.done.push(self.cur), cur: seq![e], ..self }
        }
    }

    /// An empty builder.
    pub open spec fn empty(block_size: usize) -> BuilderView {
        BuilderView { block_size, done: Seq::empty(), cur: Seq::empty() }
    }
}

pub proof fn lemma_flat_push(cs: Seq<Seq<Entry>>, es: Seq<Entry>)
    ensures
        flat(cs.push(es)) == flat(cs) + es,
{
    assert(cs.push(es).drop_last() =~= cs);
}

/// The table holds the entries that were added.
pub proof fn lemma_chunks_all(v: BuilderView)
    ensures
        flat(v.chunks()) == v.all(),
{
    lemma_flat_push(v.done, v.cur);
    assert(v.cur.len() == 0 ==> v.all() =~= flat(v.done));
}

/// An added entry comes behind the entries that were added before.
pub proof fn lemma_added_all(v: BuilderView, e: Entry)
    ensures
        v.added(e).all() == v.all().push(e),
{
    lemma_flat_push(v.done, v.cur);
    assert(flat(v.done) + v.cur.push(e) =~= v.all().push(e));
    assert(v.all() + seq![e] =~= v.all().push(e));
}

/// The estimated size of a table counts the finished blocks only: it is 0 as long as there is none,
/// and adding an entry makes it grow exactly where that ends a block.
pub proof fn lemma_estimated_size(v: BuilderView, e: Entry)
    ensures
        v.done.len() == 0 ==> chunks_bytes(v.done).len() == 0,
        chunks_bytes(v.added(e).done).len() >= chunks_bytes(v.done).len(),
        chunks_bytes(v.added(e).done).len() > chunks_bytes(v.done).len() <==> v.added(e).done.len()
            > v.done.len(),
        v.added(e).done.len() > v.done.len() <==> !block_builder::has_room(
            v.cur,
            v.block_size as int,
            e.key.key.len() as int,
            e.value.len() as int,
        ),
{
    reveal(chunk_bytes);
    assert(v.done.push(v.cur).drop_last() =~= v.done);
}

proof fn lemma_max_ts_push(es: Seq<Entry>, e: Entry)
    ensures
        max_ts_of(es.push(e)) == if e.key.ts > max_ts_of(es) {
            e.key.ts
        } else {
            max_ts_of(es)
        },
{
    assert(es.push(e).drop_last() =~= es);
}

/// Builds a table.
pub struct SsTableBuilder {
    builder: BlockBuilder,
    first_key: KeyVec,
    last_key: KeyVec,
    data: Vec<u8>,
    meta: Vec<BlockMeta>,
    block_size: usize,
    key_hashes: Vec<u32>,
    max_ts: u64,
    done: Ghost<Seq<Seq<Entry>>>,
}

impl View for SsTableBuilder {
    type V = BuilderView;

    closed spec fn view(&self) -> BuilderView {
        BuilderView { block_size: self.block_size, done: self.done@, cur: self.builder@ }
    }
}

impl SsTableBuilder {
    /// The bytes, the metadata and the hashes are those of the entries.
    pub closed spec fn wf(&self) -> bool {
        &&& self.blocks_wf()
        &&& self.key_hashes@ == hashes_of(self@.all())
        &&& self.max_ts == max_ts_of(self@.all())
        &&& self@.cur.len() > 0 ==> {
            &&& self.first_key@ == self@.cur[0].key
            &&& self.last_key@ == self@.cur.last().key
        }
        &&& self@.cur.len() == 0 ==> self.first_key@.key.len() == 0
    }

    spec fn blocks_wf(&self) -> bool {
        &&& self.builder.wf()
        &&& self.builder.size_limit() == self.block_size
        &&& self.data@ == chunks_bytes(self@.done)
        &&& table::metas_view(self.meta@) == metas_of(self@.done)
        &&& 14 * flat(self@.done).len() <= self.data@.len()
        &&& good_chunks(self@.done)
    }

    /// What a well-formed builder holds makes blocks that can be read back.
    pub proof fn lemma_chunks(&self)
        requires
            self.wf(),
        ensures
            good_chunks(self@.chunks()),
    {
        self.builder.lemma_entries();
    }

    /// A builder without entries whose blocks aim at `block_size` bytes.
    pub fn new(block_size: usize) -> (r: Self)
        ensures
            r.wf(),
            r@ == BuilderView::empty(block_size),
    {
        let r = SsTableBuilder {
            builder: BlockBuilder::new(block_size),
            first_key: KeyVec::new(),
            last_key: KeyVec::new(),
            data: Vec::new(),
            meta: Vec::new(),
            block_size,
            key_hashes: Vec::new(),
            max_ts: 0,
            done: Ghost(Seq::empty()),
        };
        proof {
            assert(r@.all() =~= Seq::empty());
            assert(r.key_hashes@ =~= hashes_of(r@.all()));
            assert(table::metas_view(r.meta@) =~= metas_of(r@.done));
        }
        r
    }

    /// Ends the current block.
    fn finish_block(&mut self)
        requires
            old(self).blocks_wf(),
            old(self)@.cur.len() > 0,
            old(self).first_key@ == old(self)@.cur[0].key,
            old(self).last_key@ == old(self)@.cur.last().key,
        ensures
            final(self).blocks_wf(),
            final(self)@ == (BuilderView {
                done: old(self)@.done.push(old(self)@.cur),
                cur: Seq::empty(),
                ..old(self)@
            }),
            final(self).first_key@.key.len() == 0,
            final(self).key_hashes == old(self).key_hashes,
            final(self).max_ts == old(self).max_ts,
    {
        let ghost v = self@;
        proof {
            self.builder.lemma_entries();
        }
        let mut builder = BlockBuilder::new(self.block_size);
        std::mem::swap(&mut self.builder, &mut builder);
        let mut first_key = KeyVec::new();
        std::mem::swap(&mut self.first_key, &mut first_key);
        let mut last_key = KeyVec::new();
        std::mem::swap(&mut self.last_key, &mut last_key);
        let offset: usize = self.data.len();
        let encoded: Vec<u8> = builder.build().encode();
        put_slice(&mut self.data, encoded.as_slice());
        put_u32(&mut self.data, hash::crc32(encoded.as_slice()));
        let ghost old_metas = table::metas_view(self.meta@);
        self.meta.push(BlockMeta { offset, first_key, last_key });
        self.done = Ghost(v.done.push(v.cur));
        proof {
            let cs = v.done.push(v.cur);
            assert(cs.drop_last() =~= v.done);
            reveal(chunk_bytes);
            assert(self.data@ =~= chunks_bytes(cs));
            lemma_flat_push(v.done, v.cur);
            lemma_metas_push(v.done, v.cur);
            assert(table::metas_view(self.meta@) =~= old_metas.push(self.meta@.last()@));
            assert(block::block_bytes(v.cur).len() >= block::block_data(v.cur).len());
        }
    }

    /// Adds an entry.
    pub fn add(&mut self, key: KeySlice<'_>, value: &[u8])
        requires
            old(self).wf(),
            block::valid_entry(Entry { key: key@, value: value@ }),
            hash::hashable(key@.key),
        ensures
            final(self).wf(),
            final(self)@ == old(self)@.added(Entry { key: key@, value: value@ }),
    {
        let ghost v = self@;
        let ghost e = Entry { key: key@, value: value@ };
        self.key_hashes.push(hash::fingerprint32(key.key_ref()));
        if key.ts() > self.max_ts {
            self.max_ts = key.ts();
        }
        proof {
            self.builder.lemma_entries();
            assert(v.cur.len() > 0 ==> block::valid_entry(v.cur[0]));
            lemma_added_all(v, e);
            lemma_max_ts_push(v.all(), e);
            assert(self.key_hashes@ =~= hashes_of(v.all().push(e)));
        }
        if self.first_key.is_empty() {
            self.first_key.set_from_slice(key);
        }
        if self.builder.add(key, value) {
            self.last_key.set_from_slice(key);
            return;
        }
        self.finish_block();
        let _added: bool = self.builder.add(key, value);
        self.first_key.set_from_slice(key);
        self.last_key.set_from_slice(key);
        assert(self@.cur =~= seq![e]);
    }

    /// The number of bytes of the finished blocks.
    pub fn estimated_size(&self) -> (r: usize)
        requires
            self.wf(),
        ensures
            r == chunks_bytes(self@.done).len(),
    {
        self.data.len()
    }

    /// Whether no entry was added.
    pub fn is_empty(&self) -> (r: bool)
        requires
            self.wf(),
        ensures
            r == (self@.all().len() == 0),
    {
        self.key_hashes.len() == 0
    }

    /// Builds the table.
    pub fn build(self, id: usize) -> (r: SsTable)
        requires
            self.wf(),
        ensures
            r.wf(),
            r@ == built(id, self@.chunks()),
    {
        let mut this = self;
        let ghost v = self@;
        let ghost cs = self@.chunks();
        proof {
            lemma_chunks_all(v);
            this.builder.lemma_entries();
        }
        if !this.builder.is_empty() {
            this.finish_block();
        }
        assert(this@.done == cs);
        let mut buf: Vec<u8> = this.data;
        let meta_offset: u32 = buf.len() as u32;
        BlockMeta::encode_block_meta(this.meta.as_slice(), this.max_ts, &mut buf);
        proof {
            assert(this.key_hashes@.len() == v.all().len());
        }
        let bloom = Bloom::build_from_key_hashes(this.key_hashes.as_slice(), BITS_PER_KEY);
        proof {
            bloom::lemma_bloom_of(bloom@, this.key_hashes@, BITS_PER_KEY as int);
        }
        let bloom_offset: u32 = buf.len() as u32;
        bloom.encode(&mut buf);
        put_u32(&mut buf, meta_offset);
        put_u32(&mut buf, bloom_offset);
        assert(buf@ == file_bytes(cs));
        let first_key: KeyVec = table::first_meta_key(&this.meta);
        let last_key: KeyVec = table::last_meta_key(&this.meta);
        let file = FileObject::from_bytes(buf);
        SsTable {
            file,
            block_meta: this.meta,
            block_meta_offset: meta_offset as usize,
            id,
            first_key,
            last_key,
            bloom: Some(bloom),
            max_ts: this.max_ts,
        }
    }
}

proof fn lemma_metas_push(cs: Seq<Seq<Entry>>, es: Seq<Entry>)
    ensures
        metas_of(cs.push(es)) == metas_of(cs).push(
            MetaView {
                offset: chunks_bytes(cs).len() as usize,
                first_key: es[0].key,
                last_key: es.last().key,
            },
        ),
{
    let all = cs.push(es);
    assert forall|i: int| 0 <= i < all.len() implies #[trigger] all.take(i) == if i < cs.len() {
        cs.take(i)
    } else {
        cs
    } by {
        assert(all.take(i) =~= if i < cs.len() {
            cs.take(i)
        } else {
            cs
        });
    }
    assert(metas_of(all) =~= metas_of(cs).push(
        MetaView {
            offset: chunks_bytes(cs).len() as usize,
            first_key: es[0].key,
            last_key: es.last().key,
        },
    ));
}

/// The bytes of block `i` stand behind those of the blocks before it.
proof fn lemma_chunk_at(cs: Seq<Seq<Entry>>, i: int)
    requires
        0 <= i < cs.len(),
    ensures
        codec::holds_at(chunks_bytes(cs), chunks_bytes(cs.take(i)).len() as int, chunk_bytes(cs[i])),
    decreases cs.len(),
{
    let init = cs.drop_last();
    if i == cs.len() - 1 {
        assert(cs.take(i) =~= init);
        codec::lemma_holds_at_tail(chunks_bytes(init), chunk_bytes(cs.last()));
    } else {
        assert(init.take(i) =~= cs.take(i));
        assert(init[i] == cs[i]);
        lemma_chunk_at(init, i);
        codec::lemma_holds_at_extend(
            chunks_bytes(init),
            chunk_bytes(cs.last()),
            chunks_bytes(cs.take(i)).len() as int,
            chunk_bytes(cs[i]),
        );
    }
}

/// The bytes of block `i` and its checksum are read back as its entries.
proof fn lemma_chunk_decoded(es: Seq<Entry>)
    requires
        good_chunk(es),
    ensures
        table::block_decoded(chunk_bytes(es)) == Ok::<Seq<Entry>, StorageError>(es),
        chunk_bytes(es).len() > 4,
{
    reveal(chunk_bytes);
    let body = block::block_bytes(es);
    let raw = chunk_bytes(es);
    codec::lemma_holds_at_tail(body, codec::be32(hash::crc32_of(body)));
    codec::lemma_get32(raw, body.len() as int, hash::crc32_of(body));
    assert(raw.take(raw.len() - 4) =~= body);
    block::lemma_block_round_trip(es);
}

proof fn lemma_take_next(cs: Seq<Seq<Entry>>, i: int)
    requires
        0 <= i < cs.len(),
    ensures
        chunks_bytes(cs.take(i + 1)) == chunks_bytes(cs.take(i)) + chunk_bytes(cs[i]),
{
    assert(cs.take(i + 1).drop_last() =~= cs.take(i));
}

/// The blocks of a built table are the blocks that the builder finished, as long as the end of its
/// data fits in the field that holds it.
pub proof fn lemma_built_block(id: usize, cs: Seq<Seq<Entry>>, i: int)
    requires
        good_chunks(cs),
        chunks_bytes(cs).len() <= 0xffff_ffff,
        0 <= i < cs.len(),
    ensures
        built(id, cs).block(i) == Ok::<Seq<Entry>, StorageError>(cs[i]),
{
    lemma_chunk_decoded(cs[i]);
    lemma_block_span(id, cs, i);
    lemma_chunk_in_file(cs, i);
}

proof fn lemma_block_span(id: usize, cs: Seq<Seq<Entry>>, i: int)
    requires
        good_chunks(cs),
        chunks_bytes(cs).len() <= 0xffff_ffff,
        0 <= i < cs.len(),
    ensures
        built(id, cs).block_start(i) == chunks_bytes(cs.take(i)).len(),
        built(id, cs).block_end(i) == chunks_bytes(cs.take(i)).len() + chunk_bytes(cs[i]).len(),
{
    lemma_chunk_at(cs, i);
    lemma_take_next(cs, i);
    assert(cs.take(cs.len() as int) =~= cs);
}

proof fn lemma_chunk_in_file(cs: Seq<Seq<Entry>>, i: int)
    requires
        0 <= i < cs.len(),
    ensures
        codec::holds_at(file_bytes(cs), chunks_bytes(cs.take(i)).len() as int, chunk_bytes(cs[i])),
{
    lemma_chunk_at(cs, i);
    let data = chunks_bytes(cs);
    let x = codec::be32(data.len() as u32);
    let y = codec::be32((data + meta_section(cs)).len() as u32);
    let rest = meta_section(cs) + bloom_section(cs) + x + y;
    codec::lemma_holds_at_extend(
        data,
        rest,
        chunks_bytes(cs.take(i)).len() as int,
        chunk_bytes(cs[i]),
    );
    assert(file_bytes(cs) =~= data + rest);
}

proof fn lemma_flat_skip(cs: Seq<Seq<Entry>>, i: int)
    requires
        0 <= i < cs.len(),
    ensures
        flat(cs.skip(i)) == cs[i] + flat(cs.skip(i + 1)),
    decreases cs.len() - i,
{
    let s = cs.skip(i);
    let t = cs.skip(i + 1);
    lemma_flat_first(s);
    assert(s.skip(1) =~= t);
}

pub proof fn lemma_flat_first(cs: Seq<Seq<Entry>>)
    requires
        cs.len() > 0,
    ensures
        flat(cs) == cs[0] + flat(cs.skip(1)),
    decreases cs.len(),
{
    if cs.len() == 1 {
        assert(cs.drop_last() =~= Seq::empty());
        assert(cs.skip(1) =~= Seq::empty());
        assert(flat(cs.drop_last()) =~= Seq::empty());
        assert(flat(cs.skip(1)) =~= Seq::empty());
        assert(flat(cs) =~= cs[0] + flat(cs.skip(1)));
    } else {
        lemma_flat_first(cs.drop_last());
        assert(cs.drop_last().skip(1) =~= cs.skip(1).drop_last());
        assert(flat(cs) =~= cs[0] + flat(cs.skip(1)));
    }
}

/// A built table hands out the entries that were added, in the order in which they were added.
pub proof fn lemma_built_stream(id: usize, cs: Seq<Seq<Entry>>, i: int)
    requires
        good_chunks(cs),
        chunks_bytes(cs).len() <= 0xffff_ffff,
        0 <= i <= cs.len(),
    ensures
        built(id, cs).tail(i) == (Stream { entries: flat(cs.skip(i)), fault: None }),
    decreases cs.len() - i,
{
    if i < cs.len() {
        lemma_built_block(id, cs, i);
        lemma_built_stream(id, cs, i + 1);
        lemma_flat_skip(cs, i);
    } else {
        assert(cs.skip(i) =~= Seq::empty());
        assert(flat(cs.skip(i)) =~= Seq::empty());
    }
}

/// A table that is opened from the bytes of a built table is the built table, as long as the ends of
/// its data and of its metadata fit in the fields that hold them.
pub proof fn lemma_built_opened(id: usize, cs: Seq<Seq<Entry>>)
    requires
        good_chunks(cs),
        chunks_bytes(cs).len() + meta_section(cs).len() <= 0xffff_ffff,
    ensures
        table::opened(id, file_bytes(cs)) == Ok::<TableView, StorageError>(built(id, cs)),
{
    let data = chunks_bytes(cs);
    let m = meta_section(cs);
    let b = bloom_section(cs);
    let f = file_bytes(cs);
    let ms = metas_of(cs);
    lemma_metas_of_fit(cs);
    table::lemma_block_meta_round_trip(ms, max_ts_of(flat(cs)));
    bloom::lemma_bloom_round_trip(bloom::bloom_of(hashes_of(flat(cs)), BITS_PER_KEY as int));
    lemma_sections(data, m, b, data.len() as u32, (data + m).len() as u32);
    codec::lemma_framed(
        ms.len() as u32,
        table::meta_body(ms, max_ts_of(flat(cs))),
        hash::crc32_of(table::meta_body(ms, max_ts_of(flat(cs)))),
    );
}

proof fn lemma_sections(data: Seq<u8>, m: Seq<u8>, b: Seq<u8>, mo: u32, bo: u32)
    requires
        mo == data.len(),
        bo == data.len() + m.len(),
    ensures
        ({
            let f = data + m + b + codec::be32(mo) + codec::be32(bo);
            &&& f.len() == data.len() + m.len() + b.len() + 8
            &&& codec::get32(f, f.len() - 8) == mo
            &&& codec::get32(f, f.len() - 4) == bo
            &&& f.subrange(mo as int, bo as int) == m
            &&& f.subrange(bo as int, f.len() - 8) == b
        }),
{
    let d = data + m + b;
    let x = codec::be32(mo);
    let y = codec::be32(bo);
    let f = d + x + y;
    codec::lemma_holds_at_tail(d, x);
    codec::lemma_holds_at_extend(d + x, y, d.len() as int, x);
    codec::lemma_get32(f, d.len() as int, mo);
    codec::lemma_holds_at_tail(d + x, y);
    codec::lemma_get32(f, d.len() as int + 4, bo);
    assert(f.subrange(mo as int, bo as int) =~= m);
    assert(f.subrange(bo as int, f.len() - 8) =~= b);
}

proof fn lemma_metas_of_fit(cs: Seq<Seq<Entry>>)
    requires
        good_chunks(cs),
        chunks_bytes(cs).len() <= 0xffff_ffff,
    ensures
        table::metas_fit(metas_of(cs)),
        cs.len() <= chunks_bytes(cs).len(),
    decreases cs.len(),
{
    if cs.len() > 0 {
        let init = cs.drop_last();
        assert forall|i: int| 0 <= i < init.len() implies good_chunk(#[trigger] init[i]) by {
            assert(init[i] == cs[i]);
        }
        lemma_metas_of_fit(init);
        lemma_metas_push(init, cs.last());
        assert(init.push(cs.last()) =~= cs);
        lemma_chunk_decoded(cs.last());
        assert(block::valid_entry(cs.last()[0]));
        assert(block::valid_entry(cs.last()[cs.last().len() - 1]));
    }
}

/// The filter of a built table reports the key of every entry that was added.
pub proof fn lemma_built_bloom(id: usize, cs: Seq<Seq<Entry>>, i: int)
    requires
        0 <= i < flat(cs).len(),
    ensures
        built(id, cs).bloom matches Some(b) && bloom::hit(
            b,
            hash::fingerprint32_of(flat(cs)[i].key.key),
        ),
{
    let hashes = hashes_of(flat(cs));
    let b = bloom::bloom_of(hashes, BITS_PER_KEY as int);
    bloom::lemma_bloom_of_built(hashes, BITS_PER_KEY as int);
    bloom::lemma_no_false_negative(b, hashes, BITS_PER_KEY as int, i);
}

/// An entry goes into the open block while that has room for it; otherwise the block is closed as it
/// is, and the entry begins the next one. Closed blocks do not change any more.
pub proof fn lemma_added_exactly(v: BuilderView, e: Entry)
    requires
        v.cur.len() <= 0xffff,
    ensures
        ({
            let bytes = block::block_bytes(v.cur).len();
            let fits = v.cur.len() == 0 || (bytes + e.key.key.len() + e.value.len() + 14
                <= v.block_size && bytes - 2 * v.cur.len() - 2 <= 0xffff);
            &&& fits ==> v.added(e).done == v.done && v.added(e).cur == v.cur.push(e)
            &&& !fits ==> v.added(e).done == v.done.push(v.cur) && v.added(e).cur == seq![e]
            &&& v.added(e).block_size == v.block_size
        }),
{
    block_builder::lemma_room(
        v.cur,
        v.block_size as int,
        e.key.key.len() as int,
        e.value.len() as int,
    );
}

/// A builder begins without blocks, and with its open block empty. The blocks of what was built are
/// the closed ones and, where something is in it, the open one.
pub proof fn lemma_chunks_exactly(block_size: usize, v: BuilderView)
    ensures
        BuilderView::empty(block_size).block_size == block_size,
        BuilderView::empty(block_size).chunks().len() == 0,
        v.cur.len() == 0 ==> v.chunks() == v.done,
        v.cur.len() > 0 ==> v.chunks() == v.done + seq![v.cur],
{
}

/// The largest time of entries is not before any of their times, and it is one of them where there
/// are entries.
pub proof fn lemma_max_ts(es: Seq<Entry>)
    ensures
        forall|i: int| 0 <= i < es.len() ==> (#[trigger] es[i]).key.ts <= max_ts_of(es),
        es.len() > 0 ==> exists|i: int|
            0 <= i < es.len() && (#[trigger] es[i]).key.ts == max_ts_of(es),
        es.len() == 0 ==> max_ts_of(es) == 0,
    decreases es.len(),
{
    if es.len() > 0 {
        let init = es.drop_last();
        lemma_max_ts(init);
        assert forall|i: int| 0 <= i < es.len() implies (#[trigger] es[i]).key.ts <= max_ts_of(
            es,
        ) by {
            if i < init.len() {
                assert(init[i] == es[i]);
            }
        }
        if init.len() == 0 || es.last().key.ts > max_ts_of(init) {
            assert(es[es.len() - 1].key.ts == max_ts_of(es));
        } else {
            let i = choose|i: int|
                0 <= i < init.len() && (#[trigger] init[i]).key.ts == max_ts_of(init);
            assert(es[i].key.ts == max_ts_of(es));
        }
    }
}

/// A stored block is the block followed by its checksum in four bytes.
pub proof fn lemma_chunk_layout(es: Seq<Entry>)
    ensures
        ({
            let raw = chunk_bytes(es);
            let n = block::block_bytes(es).len() as int;
            &&& raw.len() == n + 4
            &&& raw.take(n) == block::block_bytes(es)
            &&& codec::get32(raw, n) == hash::crc32_of(block::block_bytes(es))
        }),
{
    reveal(chunk_bytes);
    let b = block::block_bytes(es);
    let raw = chunk_bytes(es);
    assert(raw.take(b.len() as int) =~= b);
    assert(raw.subrange(b.len() as int, b.len() as int + 4) =~= codec::be32(hash::crc32_of(b)));
    codec::lemma_get32(raw, b.len() as int, hash::crc32_of(b));
}

/// The stored blocks stand one after the other.
pub proof fn lemma_chunks_concat(a: Seq<Seq<Entry>>, b: Seq<Seq<Entry>>)
    ensures
        chunks_bytes(a + b) == chunks_bytes(a) + chunks_bytes(b),
        flat(a + b) == flat(a) + flat(b),
        a.len() == 1 ==> chunks_bytes(a) == chunk_bytes(a[0]) && flat(a) == a[0],
    decreases b.len(),
{
    reveal_with_fuel(chunks_bytes, 2);
    reveal_with_fuel(flat, 2);
    if b.len() == 0 {
        assert(a + b =~= a);
        assert(chunks_bytes(a) + chunks_bytes(b) =~= chunks_bytes(a));
        assert(flat(a) + flat(b) =~= flat(a));
    } else {
        assert((a + b).drop_last() =~= a + b.drop_last());
        lemma_chunks_concat(a, b.drop_last());
        assert(chunks_bytes(a) + (chunks_bytes(b.drop_last()) + chunk_bytes(b.last())) =~= (
        chunks_bytes(a) + chunks_bytes(b.drop_last())) + chunk_bytes(b.last()));
        assert(flat(a) + (flat(b.drop_last()) + b.last()) =~= (flat(a) + flat(b.drop_last()))
            + b.last());
    }
    if a.len() == 1 {
        assert(a.drop_last() =~= Seq::empty());
        assert(chunks_bytes(a) =~= chunk_bytes(a[0]));
        assert(flat(a) =~= a[0]);
    }
}

/// The index of a table says of each block where it stands and what its first and last keys are.
pub proof fn lemma_metas_exactly(cs: Seq<Seq<Entry>>, i: int)
    requires
        good_chunks(cs),
        chunks_bytes(cs).len() <= 0xffff_ffff,
        0 <= i < cs.len(),
    ensures
        metas_of(cs).len() == cs.len(),
        codec::holds_at(chunks_bytes(cs), metas_of(cs)[i].offset as int, chunk_bytes(cs[i])),
        metas_of(cs)[0].offset == 0,
        i + 1 < cs.len() ==> metas_of(cs)[i + 1].offset == metas_of(cs)[i].offset + chunk_bytes(
            cs[i],
        ).len(),
        metas_of(cs)[i].first_key == cs[i][0].key,
        metas_of(cs)[i].last_key == cs[i][cs[i].len() - 1].key,
{
    let a = cs.take(i);
    let c = seq![cs[i]];
    let b = cs.skip(i + 1);
    lemma_chunks_concat(a, c);
    lemma_chunks_concat(a + c, b);
    lemma_chunks_concat(c, b);
    assert(cs =~= (a + c) + b);
    assert(cs.take(i + 1) =~= a + c);
    assert(cs.take(0) =~= Seq::empty());
    let all = chunks_bytes(cs);
    let at = chunks_bytes(a).len() as int;
    assert(all.subrange(at, at + chunk_bytes(cs[i]).len()) =~= chunk_bytes(cs[i]));
}

/// How a table is laid out: its blocks, the index, the filter, and in four bytes each where the index
/// and where the filter begin.
pub proof fn lemma_file_layout(cs: Seq<Seq<Entry>>)
    requires
        chunks_bytes(cs).len() + meta_section(cs).len() <= 0xffff_ffff,
    ensures
        ({
            let f = file_bytes(cs);
            let mo = codec::get32(f, f.len() - 8) as int;
            let bo = codec::get32(f, f.len() - 4) as int;
            &&& 0 <= mo <= bo <= f.len() - 8
            &&& f.take(mo) == chunks_bytes(cs)
            &&& f.subrange(mo, bo) == meta_section(cs)
            &&& f.subrange(bo, f.len() - 8) == bloom_section(cs)
        }),
{
    let f = file_bytes(cs);
    let a = chunks_bytes(cs);
    let b = meta_section(cs);
    let c = bloom_section(cs);
    let x = a.len() as u32;
    let y = (a + b).len() as u32;
    assert(f =~= a + b + c + codec::be32(x) + codec::be32(y));
    assert(f.subrange(f.len() - 8, f.len() - 4) =~= codec::be32(x));
    assert(f.subrange(f.len() - 4, f.len() as int) =~= codec::be32(y));
    codec::lemma_get32(f, f.len() - 8, x);
    codec::lemma_get32(f, f.len() - 4, y);
    assert(f.take(a.len() as int) =~= a);
    assert(f.subrange(a.len() as int, (a + b).len() as int) =~= b);
    assert(f.subrange((a + b).len() as int, f.len() - 8) =~= c);
}

/// What is known of a built table: its number, its bytes and their number, the first and the last
/// key, the largest time, and a filter made from the keys of all entries.
pub proof fn lemma_built_exactly(id: usize, cs: Seq<Seq<Entry>>)
    requires
        good_chunks(cs),
        cs.len() > 0,
        file_bytes(cs).len() <= u64::MAX,
    ensures
        ({
            let t = built(id, cs);
            let es = flat(cs);
            &&& t.id == id
            &&& t.data == Some(file_bytes(cs))
            &&& t.size == file_bytes(cs).len()
            &&& t.metas.len() == cs.len()
            &&& es.len() > 0
            &&& t.first_key == es[0].key
            &&& t.last_key == es[es.len() - 1].key
            &&& forall|i: int| 0 <= i < es.len() ==> (#[trigger] es[i]).key.ts <= t.max_ts
            &&& exists|i: int| 0 <= i < es.len() && (#[trigger] es[i]).key.ts == t.max_ts
            &&& t.bloom == Some(
                bloom::bloom_of(
                    es.map_values(|e: Entry| hash::fingerprint32_of(e.key.key)),
                    10,
                ),
            )
        }),
{
    let es = flat(cs);
    assert(good_chunk(cs[0]) && good_chunk(cs[cs.len() - 1]));
    lemma_flat_first(cs);
    assert(es == flat(cs.drop_last()) + cs.last());
    lemma_max_ts(es);
    assert(hashes_of(es) =~= es.map_values(|e: Entry| hash::fingerprint32_of(e.key.key)));
}

} // verus!
