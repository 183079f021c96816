//! Sorted string tables.
//!
//! A table file holds its data blocks, each followed by a four-byte checksum, then the metadata of
//! the blocks, then a bloom filter over the keys, then the four-byte offsets of the metadata and of
//! the filter.

use std::sync::Arc;

use vstd::prelude::*;

use crate::block;
use crate::block::Block;
use crate::codec;
use crate::codec::{put_slice, put_u16, put_u32, put_u64, read_u16, read_u32, read_u64};
use crate::error::StorageError;
use crate::hash;
use crate::iterators::Stream;
use crate::key;
use crate::key::{Entry, Key, KeyBytes, KeySlice, KeyVec, TS_DEFAULT};

pub mod bloom;
pub mod builder;
pub mod iterator;

use self::bloom::{Bloom, BloomView};

verus! {

/// The mathematical value of the metadata of a block.
#[verifier::ext_equal]
pub struct MetaView {
    pub offset: usize,
    pub first_key: Key,
    pub last_key: Key,
}

/// The bytes of a key in the metadata.
pub open spec fn key_bytes(k: Key) -> Seq<u8> {
    codec::be16(k.key.len() as u16) + (k.key + codec::be64(k.ts))
}

/// The bytes of the metadata of one block.
#[verifier::opaque]
pub open spec fn meta_bytes(m: MetaView) -> Seq<u8> {
    codec::be32(m.offset as u32) + (key_bytes(m.first_key) + key_bytes(m.last_key))
}

/// The bytes of the metadata of blocks, one behind the other.
pub open spec fn metas_bytes(ms: Seq<MetaView>) -> Seq<u8>
    decreases ms.len(),
{
    if ms.len() == 0 {
        Seq::empty()
    } else {
        meta_bytes(ms[0]) + metas_bytes(ms.drop_first())
    }
}

/// The part of the metadata section that its checksum covers.
#[verifier::opaque]
pub open spec fn meta_body(ms: Seq<MetaView>, max_ts: u64) -> Seq<u8> {
    metas_bytes(ms) + codec::be64(max_ts)
}

/// The metadata section: the number of blocks, the metadata of each, the highest timestamp and a
/// checksum.
pub open spec fn block_meta_bytes(ms: Seq<MetaView>, max_ts: u64) -> Seq<u8> {
    codec::framed(
        ms.len() as u32,
        meta_body(ms, max_ts),
        hash::crc32_of(meta_body(ms, max_ts)),
    )
}

/// The key at `pos` and the position behind it.
pub open spec fn parse_key(s: Seq<u8>, pos: int) -> Option<(Key, int)> {
    if pos + 2 > s.len() {
        None
    } else {
        let n = codec::get16(s, pos) as int;
        if pos + 2 + n + 8 > s.len() {
            None
        } else {
            Some(
                (
                    Key {
                        key: s.subrange(pos + 2, pos + 2 + n),
                        ts: codec::get64(s, pos + 2 + n),
                    },
                    pos + 10 + n,
                ),
            )
        }
    }
}

/// The metadata of one block at `pos` and the position behind it.
#[verifier::opaque]
pub open spec fn parse_meta(s: Seq<u8>, pos: int) -> Option<(MetaView, int)> {
    if pos + 4 > s.len() {
        None
    } else {
        match parse_key(s, pos + 4) {
            None => None,
            Some((first_key, p1)) => match parse_key(s, p1) {
                None => None,
                Some((last_key, p2)) => Some(
                    (
                        MetaView { offset: codec::get32(s, pos) as usize, first_key, last_key },
                        p2,
                    ),
                ),
            },
        }
    }
}

/// The metadata of `n` blocks at `pos` and the position behind it.
pub open spec fn parse_metas(s: Seq<u8>, pos: int, n: nat) -> Option<(Seq<MetaView>, int)>
    decreases n,
{
    if n == 0 {
        Some((Seq::empty(), pos))
    } else {
        match parse_meta(s, pos) {
            None => None,
            Some((m, p)) => match parse_metas(s, p, (n - 1) as nat) {
                None => None,
                Some((ms, q)) => Some((seq![m] + ms, q)),
            },
        }
    }
}

/// What is read from the bytes of a metadata section.
pub open spec fn block_meta_decoded(buf: Seq<u8>) -> Result<(Seq<MetaView>, u64), StorageError> {
    if buf.len() < 8 {
        Err(StorageError::CorruptMeta)
    } else if hash::crc32_of(buf.subrange(4, buf.len() - 4)) != codec::get32(buf, buf.len() - 4) {
        Err(StorageError::MetaChecksumMismatch)
    } else {
        match parse_metas(buf, 4, codec::get32(buf, 0) as nat) {
            None => Err(StorageError::CorruptMeta),
            Some((ms, pos)) => if pos + 12 > buf.len() {
                Err(StorageError::CorruptMeta)
            } else {
                Ok((ms, codec::get64(buf, pos)))
            },
        }
    }
}

/// The fields of the metadata of a block fit into the bytes that they are stored in.
pub open spec fn meta_fits(m: MetaView) -> bool {
    &&& m.offset <= 0xffff_ffff
    &&& m.first_key.key.len() <= 0xffff
    &&& m.last_key.key.len() <= 0xffff
}

pub open spec fn metas_fit(ms: Seq<MetaView>) -> bool {
    forall|i: int| 0 <= i < ms.len() ==> meta_fits(#[trigger] ms[i])
}

proof fn lemma_parse_key(s: Seq<u8>, pos: int, k: Key)
    requires
        k.key.len() <= 0xffff,
        codec::holds_at(s, pos, key_bytes(k)),
    ensures
        parse_key(s, pos) == Some((k, pos + key_bytes(k).len())),
{
    let n = k.key.len() as int;
    codec::lemma_holds_at_concat(s, pos, codec::be16(n as u16), k.key + codec::be64(k.ts));
    codec::lemma_get16(s, pos, n as u16);
    codec::lemma_holds_at_concat(s, pos + 2, k.key, codec::be64(k.ts));
    codec::lemma_get64(s, pos + 2 + n, k.ts);
    assert(parse_key(s, pos)->Some_0.0 =~= k);
}

proof fn lemma_parse_meta(s: Seq<u8>, pos: int, m: MetaView)
    requires
        meta_fits(m),
        codec::holds_at(s, pos, meta_bytes(m)),
    ensures
        parse_meta(s, pos) == Some((m, pos + meta_bytes(m).len())),
{
    reveal(meta_bytes);
    reveal(parse_meta);
    let k1 = key_bytes(m.first_key);
    let k2 = key_bytes(m.last_key);
    codec::lemma_holds_at_concat(s, pos, codec::be32(m.offset as u32), k1 + k2);
    codec::lemma_get32(s, pos, m.offset as u32);
    codec::lemma_holds_at_concat(s, pos + 4, k1, k2);
    lemma_parse_key(s, pos + 4, m.first_key);
    lemma_parse_key(s, pos + 4 + k1.len(), m.last_key);
    assert(parse_meta(s, pos)->Some_0.0 =~= m);
}

proof fn lemma_parse_metas(s: Seq<u8>, pos: int, ms: Seq<MetaView>)
    requires
        metas_fit(ms),
        codec::holds_at(s, pos, metas_bytes(ms)),
    ensures
        parse_metas(s, pos, ms.len()) == Some((ms, pos + metas_bytes(ms).len())),
    decreases ms.len(),
{
    if ms.len() > 0 {
        let rest = ms.drop_first();
        codec::lemma_holds_at_concat(s, pos, meta_bytes(ms[0]), metas_bytes(rest));
        lemma_parse_meta(s, pos, ms[0]);
        assert forall|i: int| 0 <= i < rest.len() implies meta_fits(#[trigger] rest[i]) by {
            assert(rest[i] == ms[i + 1]);
        }
        lemma_parse_metas(s, pos + meta_bytes(ms[0]).len(), rest);
        assert(seq![ms[0]] + rest =~= ms);
    } else {
        assert(ms =~= Seq::empty());
    }
}

/// The metadata of blocks and the highest timestamp are read back from the metadata section.
pub proof fn lemma_block_meta_round_trip(ms: Seq<MetaView>, max_ts: u64)
    requires
        metas_fit(ms),
        ms.len() <= 0xffff_ffff,
    ensures
        block_meta_decoded(block_meta_bytes(ms, max_ts)) == Ok::<(Seq<MetaView>, u64), StorageError>(
            (ms, max_ts),
        ),
{
    let buf = block_meta_bytes(ms, max_ts);
    let body = meta_body(ms, max_ts);
    codec::lemma_framed(ms.len() as u32, body, hash::crc32_of(body));
    lemma_meta_sections(buf, ms, max_ts);
}

proof fn lemma_meta_sections(buf: Seq<u8>, ms: Seq<MetaView>, max_ts: u64)
    requires
        metas_fit(ms),
        codec::holds_at(buf, 4, meta_body(ms, max_ts)),
    ensures
        parse_metas(buf, 4, ms.len()) == Some((ms, 4 + metas_bytes(ms).len() as int)),
        codec::get64(buf, 4 + metas_bytes(ms).len() as int) == max_ts,
        meta_body(ms, max_ts).len() == metas_bytes(ms).len() + 8,
{
    reveal(meta_body);
    codec::lemma_holds_at_concat(buf, 4, metas_bytes(ms), codec::be64(max_ts));
    lemma_parse_metas(buf, 4, ms);
    codec::lemma_get64(buf, 4 + metas_bytes(ms).len() as int, max_ts);
}

proof fn lemma_metas_bytes_push(ms: Seq<MetaView>, m: MetaView)
    ensures
        metas_bytes(ms.push(m)) == metas_bytes(ms) + meta_bytes(m),
    decreases ms.len(),
{
    let all = ms.push(m);
    if ms.len() == 0 {
        assert(all.drop_first() =~= ms);
        assert(metas_bytes(all) =~= metas_bytes(ms) + meta_bytes(m));
    } else {
        assert(all.drop_first() =~= ms.drop_first().push(m));
        lemma_metas_bytes_push(ms.drop_first(), m);
        assert(metas_bytes(all) =~= metas_bytes(ms) + meta_bytes(m));
    }
}

proof fn lemma_parse_metas_step(s: Seq<u8>, pos: int, n: nat, m: MetaView, p: int)
    requires
        n > 0,
        parse_meta(s, pos) == Some((m, p)),
    ensures
        parse_metas(s, pos, n) == match parse_metas(s, p, (n - 1) as nat) {
            None => None,
            Some((ms, q)) => Some((seq![m] + ms, q)),
        },
{
}

/// The metadata of a data block.
#[derive(Debug, PartialEq, Eq)]
pub struct BlockMeta {
    /// Offset of this data block.
    pub offset: usize,
    /// The first key of the data block.
    pub first_key: KeyBytes,
    /// The last key of the data block.
    pub last_key: KeyBytes,
}

impl View for BlockMeta {
    type V = MetaView;

    open spec fn view(&self) -> MetaView {
        MetaView { offset: self.offset, first_key: self.first_key@, last_key: self.last_key@ }
    }
}

impl Clone for BlockMeta {
    fn clone(&self) -> (r: Self)
        ensures
            r@ == self@,
    {
        BlockMeta {
            offset: self.offset,
            first_key: self.first_key.clone(),
            last_key: self.last_key.clone(),
        }
    }
}

/// The metadata of blocks.
pub open spec fn metas_view(ms: Seq<BlockMeta>) -> Seq<MetaView> {
    Seq::new(ms.len(), |i: int| ms[i]@)
}

fn put_key(buf: &mut Vec<u8>, k: &KeyBytes)
    ensures
        final(buf)@ == old(buf)@ + key_bytes(k@),
{
    put_u16(buf, k.key.len() as u16);
    put_slice(buf, k.key.as_slice());
    put_u64(buf, k.ts);
    assert(buf@ =~= old(buf)@ + key_bytes(k@));
}

fn read_key(buf: &[u8], pos: usize) -> (r: Option<(KeyBytes, usize)>)
    requires
        pos <= buf@.len(),
    ensures
        match r {
            None => parse_key(buf@, pos as int) is None,
            Some((k, p)) => parse_key(buf@, pos as int) == Some((k@, p as int)) && pos <= p
                <= buf@.len(),
        },
{
    let len: usize = buf.len();
    if len - pos < 2 {
        return None;
    }
    let n: usize = read_u16(buf, pos) as usize;
    if len - pos - 2 < n || len - pos - 2 - n < 8 {
        return None;
    }
    let bytes: Vec<u8> = key::copy_bytes(vstd::slice::slice_subrange(buf, pos + 2, pos + 2 + n));
    let ts: u64 = read_u64(buf, pos + 2 + n);
    Some((KeyVec::from_vec_with_ts(bytes, ts), pos + 10 + n))
}

impl BlockMeta {
    /// Appends the metadata section to a buffer.
    pub fn encode_block_meta(block_meta: &[BlockMeta], max_ts: u64, buf: &mut Vec<u8>)
        ensures
            final(buf)@ == old(buf)@ + block_meta_bytes(metas_view(block_meta@), max_ts),
    {
        let ghost all = metas_view(block_meta@);
        let mut body: Vec<u8> = Vec::new();
        let mut i: usize = 0;
        assert(all.take(0) =~= Seq::empty());
        while i < block_meta.len()
            invariant
                i <= block_meta@.len(),
                all == metas_view(block_meta@),
                body@ == metas_bytes(all.take(i as int)),
            decreases block_meta@.len() - i,
        {
            let meta: &BlockMeta = &block_meta[i];
            put_u32(&mut body, meta.offset as u32);
            put_key(&mut body, &meta.first_key);
            put_key(&mut body, &meta.last_key);
            proof {
                reveal(meta_bytes);
                assert(body@ =~= metas_bytes(all.take(i as int)) + meta_bytes(meta@));
                lemma_metas_bytes_push(all.take(i as int), meta@);
                assert(all.take(i as int).push(meta@) =~= all.take(i + 1));
            }
            i += 1;
        }
        assert(all.take(i as int) =~= all);
        put_u64(&mut body, max_ts);
        reveal(meta_body);
        let sum: u32 = hash::crc32(body.as_slice());
        put_u32(buf, block_meta.len() as u32);
        put_slice(buf, body.as_slice());
        put_u32(buf, sum);
        reveal(codec::framed);
        assert(buf@ =~= old(buf)@ + block_meta_bytes(all, max_ts));
    }

    /// Reads the metadata of blocks and the highest timestamp from a metadata section.
    pub fn decode_block_meta(buf: &[u8]) -> (r: Result<(Vec<BlockMeta>, u64), StorageError>)
        ensures
            match r {
                Ok((ms, max_ts)) => block_meta_decoded(buf@) == Ok::<
                    (Seq<MetaView>, u64),
                    StorageError,
                >((metas_view(ms@), max_ts)),
                Err(e) => block_meta_decoded(buf@) == Err::<(Seq<MetaView>, u64), StorageError>(e),
            },
    {
        let len: usize = buf.len();
        if len < 8 {
            return Err(StorageError::CorruptMeta);
        }
        let body: &[u8] = vstd::slice::slice_subrange(buf, 4, len - 4);
        if hash::crc32(body) != read_u32(buf, len - 4) {
            return Err(StorageError::MetaChecksumMismatch);
        }
        let num: u32 = read_u32(buf, 0);
        let mut metas: Vec<BlockMeta> = Vec::new();
        let mut pos: usize = 4;
        let mut i: u32 = 0;
        let ghost whole = parse_metas(buf@, 4, num as nat);
        proof {
            assert(metas_view(metas@) =~= Seq::empty());
            if whole is Some {
                assert(metas_view(metas@) + whole->Some_0.0 =~= whole->Some_0.0);
            }
        }
        while i < num
            invariant
                i <= num,
                len == buf@.len(),
                4 <= pos <= len,
                whole == match parse_metas(buf@, pos as int, (num - i) as nat) {
                    None => None,
                    Some((ms, q)) => Some((metas_view(metas@) + ms, q)),
                },
                whole is None ==> block_meta_decoded(buf@) == Err::<
                    (Seq<MetaView>, u64),
                    StorageError,
                >(StorageError::CorruptMeta),
            decreases num - i,
        {
            reveal(parse_meta);
            if len - pos < 4 {
                return Err(StorageError::CorruptMeta);
            }
            let offset: usize = read_u32(buf, pos) as usize;
            let (first_key, p1) = match read_key(buf, pos + 4) {
                None => {
                    return Err(StorageError::CorruptMeta);
                },
                Some(x) => x,
            };
            let (last_key, p2) = match read_key(buf, p1) {
                None => {
                    return Err(StorageError::CorruptMeta);
                },
                Some(x) => x,
            };
            let meta = BlockMeta { offset, first_key, last_key };
            proof {
                lemma_parse_metas_step(buf@, pos as int, (num - i) as nat, meta@, p2 as int);
                let old_view = metas_view(metas@);
                assert(metas_view(metas@.push(meta)) =~= old_view.push(meta@));
                if whole is Some {
                    let ms = parse_metas(buf@, p2 as int, (num - i - 1) as nat)->Some_0.0;
                    assert(old_view + (seq![meta@] + ms) =~= old_view.push(meta@) + ms);
                }
            }
            metas.push(meta);
            pos = p2;
            i += 1;
        }
        proof {
            assert(metas_view(metas@) + Seq::<MetaView>::empty() =~= metas_view(metas@));
        }
        if len - pos < 12 {
            return Err(StorageError::CorruptMeta);
        }
        let max_ts: u64 = read_u64(buf, pos);
        Ok((metas, max_ts))
    }
}

/// What a read of `len` bytes at `offset` gives.
pub open spec fn read_at(data: Seq<u8>, offset: int, len: int) -> Result<Seq<u8>, StorageError> {
    if len == 0 {
        Ok(Seq::empty())
    } else if offset + len <= data.len() {
        Ok(data.subrange(offset, offset + len))
    } else {
        Err(StorageError::ReadOutOfRange)
    }
}

/// The contents of a file. A file without contents stands for one of a known size that is never
/// read.
pub struct FileObject {
    data: Option<Vec<u8>>,
    size: u64,
}

impl FileObject {
    /// The bytes of the file.
    pub closed spec fn bytes(&self) -> Option<Seq<u8>> {
        match self.data {
            Some(v) => Some(v@),
            None => None,
        }
    }

    /// The size of the file.
    pub closed spec fn length(&self) -> u64 {
        self.size
    }

    /// A file with contents has their size.
    pub closed spec fn wf(&self) -> bool {
        self.data matches Some(v) ==> self.size == v@.len()
    }

    /// What a well-formed file says of its size.
    pub proof fn lemma_length(&self)
        requires
            self.wf(),
        ensures
            self.bytes() matches Some(b) ==> b.len() == self.length(),
    {
    }

    /// A file that holds `data`.
    pub fn from_bytes(data: Vec<u8>) -> (r: Self)
        ensures
            r.wf(),
            r.bytes() == Some(data@),
            r.length() == data@.len(),
    {
        let size: u64 = data.len() as u64;
        FileObject { data: Some(data), size }
    }

    /// The contents of the file.
    pub fn contents(&self) -> (r: Option<&Vec<u8>>)
        ensures
            match r {
                Some(v) => self.bytes() == Some(v@),
                None => self.bytes() is None,
            },
    {
        match &self.data {
            Some(v) => Some(v),
            None => None,
        }
    }

    /// Reads `len` bytes at `offset`.
    pub fn read(&self, offset: u64, len: u64) -> (r: Result<Vec<u8>, StorageError>)
        requires
            self.wf(),
            self.bytes() is Some,
        ensures
            match r {
                Ok(v) => read_at(self.bytes()->0, offset as int, len as int) == Ok::<
                    Seq<u8>,
                    StorageError,
                >(v@),
                Err(e) => read_at(self.bytes()->0, offset as int, len as int) == Err::<
                    Seq<u8>,
                    StorageError,
                >(e),
            },
    {
        if len == 0 {
            let v: Vec<u8> = Vec::new();
            assert(v@ =~= Seq::empty());
            return Ok(v);
        }
        match &self.data {
            None => Err(StorageError::ReadOutOfRange),
            Some(data) => {
                let total: u64 = data.len() as u64;
                if offset > total || len > total - offset {
                    return Err(StorageError::ReadOutOfRange);
                }
                let from: usize = offset as usize;
                let to: usize = (offset + len) as usize;
                Ok(key::copy_bytes(vstd::slice::slice_subrange(data.as_slice(), from, to)))
            },
        }
    }

    /// The size of the file.
    pub fn size(&self) -> (r: u64)
        ensures
            r == self.length(),
    {
        self.size
    }
}

/// The mathematical value of a table.
#[verifier::ext_equal]
pub struct TableView {
    pub id: usize,
    pub data: Option<Seq<u8>>,
    pub size: u64,
    pub metas: Seq<MetaView>,
    pub meta_offset: usize,
    pub first_key: Key,
    pub last_key: Key,
    pub bloom: Option<BloomView>,
    pub max_ts: u64,
}

/// The first key of the first of some blocks, and an empty key without blocks.
pub open spec fn first_of(ms: Seq<MetaView>) -> Key {
    if ms.len() > 0 {
        ms[0].first_key
    } else {
        Key { key: Seq::empty(), ts: TS_DEFAULT }
    }
}

/// The last key of the last of some blocks, and an empty key without blocks.
pub open spec fn last_of(ms: Seq<MetaView>) -> Key {
    if ms.len() > 0 {
        ms.last().last_key
    } else {
        Key { key: Seq::empty(), ts: TS_DEFAULT }
    }
}

/// What opening a file with the given bytes gives.
pub open spec fn opened(id: usize, data: Seq<u8>) -> Result<TableView, StorageError> {
    let size = data.len() as int;
    let mo = codec::get32(data, size - 8);
    let bo = codec::get32(data, size - 4);
    if size < 8 || bo < mo {
        Err(StorageError::CorruptTable)
    } else {
        match read_at(data, mo as int, bo - mo) {
            Err(e) => Err(e),
            Ok(raw_meta) => match block_meta_decoded(raw_meta) {
                Err(e) => Err(e),
                Ok((metas, max_ts)) => if bo > size - 8 {
                    Err(StorageError::CorruptTable)
                } else {
                    match bloom::bloom_decoded(data.subrange(bo as int, size - 8)) {
                        Err(e) => Err(e),
                        Ok(b) => Ok(
                            TableView {
                                id,
                                data: Some(data),
                                size: size as u64,
                                metas,
                                meta_offset: mo as usize,
                                first_key: first_of(metas),
                                last_key: last_of(metas),
                                bloom: Some(b),
                                max_ts,
                            },
                        ),
                    }
                },
            },
        }
    }
}

impl TableView {
    /// Where block `i` begins in the file.
    pub open spec fn block_start(self, i: int) -> int {
        self.metas[i].offset as int
    }

    /// Where block `i` and its checksum end in the file.
    pub open spec fn block_end(self, i: int) -> int {
        if i + 1 < self.metas.len() {
            self.metas[i + 1].offset as int
        } else {
            self.meta_offset as int
        }
    }

    /// What reading block `i` gives.
    pub open spec fn block(self, i: int) -> Result<Seq<Entry>, StorageError> {
        if self.block_end(i) < self.block_start(i) {
            Err(StorageError::CorruptTable)
        } else {
            match read_at(
                self.data->0,
                self.block_start(i),
                self.block_end(i) - self.block_start(i),
            ) {
                Err(e) => Err(e),
                Ok(raw) => block_decoded(raw),
            }
        }
    }

    /// The entries of the blocks from block `i` on, up to the first block that cannot be read, and
    /// the error that this block gives.
    pub open spec fn tail(self, i: int) -> Stream
        decreases self.metas.len() - i,
    {
        if i < 0 || i >= self.metas.len() {
            Stream::ended()
        } else {
            match self.block(i) {
                Err(e) => Stream { entries: Seq::empty(), fault: Some(e) },
                Ok(es) => self.tail(i + 1).after(es),
            }
        }
    }

    /// Whether the first key of block `i` is not behind `key`.
    pub open spec fn starts_by(self, i: int, key: Key) -> bool {
        key::key_le(self.metas[i].first_key, key)
    }

    /// Block `i` is where a search for `key` has to begin: it is the first one or starts by `key`,
    /// and where it starts by `key` the next one does not.
    pub open spec fn search_block(self, key: Key, i: int) -> bool {
        &&& 0 <= i
        &&& self.metas.len() == 0 ==> i == 0
        &&& self.metas.len() > 0 ==> {
            &&& i < self.metas.len()
            &&& !self.starts_by(i, key) ==> i == 0
            &&& self.starts_by(i, key) && i + 1 < self.metas.len() ==> !self.starts_by(i + 1, key)
        }
    }
}

/// The entries of a table have keys and values of representable lengths.
pub proof fn lemma_tail_valid(t: TableView, i: int)
    ensures
        t.block(i) matches Ok(es) ==> block::valid_entries(es),
        block::valid_entries(t.tail(i).entries),
    decreases t.metas.len() - i,
{
    if t.block(i) is Ok {
        let raw = read_at(t.data->0, t.block_start(i), t.block_end(i) - t.block_start(i))->Ok_0;
        block::lemma_decoded_valid(raw.take(raw.len() - 4));
    }
    if 0 <= i < t.metas.len() && t.block(i) is Ok {
        lemma_tail_valid(t, i + 1);
        let es = t.block(i)->Ok_0;
        block::lemma_valid_concat(es, t.tail(i + 1).entries);
    }
}

/// How a key is laid out in the index: the number of its bytes in two bytes, the bytes, the time.
pub proof fn lemma_key_layout(k: Key)
    requires
        k.key.len() <= 0xffff,
    ensures
        ({
            let n = k.key.len() as int;
            &&& key_bytes(k).len() == n + 10
            &&& codec::get16(key_bytes(k), 0) == n
            &&& key_bytes(k).subrange(2, 2 + n) == k.key
            &&& codec::get64(key_bytes(k), 2 + n) == k.ts
        }),
{
    let b = key_bytes(k);
    let n = k.key.len() as int;
    assert(b.subrange(0, 2) =~= codec::be16(n as u16));
    assert(b.subrange(2, 2 + n) =~= k.key);
    assert(b.subrange(2 + n, 10 + n) =~= codec::be64(k.ts));
    codec::lemma_get16(b, 0, n as u16);
    codec::lemma_get64(b, 2 + n, k.ts);
}

/// How a block is laid out in the index: where it stands in four bytes, its first key, its last key.
pub proof fn lemma_meta_layout(m: MetaView)
    requires
        meta_fits(m),
    ensures
        ({
            let n = m.first_key.key.len() + 10;
            &&& meta_bytes(m).len() == n + m.last_key.key.len() + 14
            &&& codec::get32(meta_bytes(m), 0) == m.offset
            &&& meta_bytes(m).subrange(4, 4 + n as int) == key_bytes(m.first_key)
            &&& meta_bytes(m).skip(4 + n as int) == key_bytes(m.last_key)
        }),
{
    reveal(meta_bytes);
    let b = meta_bytes(m);
    let n = m.first_key.key.len() + 10;
    assert(b.subrange(0, 4) =~= codec::be32(m.offset as u32));
    codec::lemma_get32(b, 0, m.offset as u32);
    assert(b.subrange(4, 4 + n as int) =~= key_bytes(m.first_key));
    assert(b.skip(4 + n as int) =~= key_bytes(m.last_key));
}

/// In the index the blocks stand one after the other.
pub proof fn lemma_metas_concat(a: Seq<MetaView>, b: Seq<MetaView>)
    ensures
        metas_bytes(a + b) == metas_bytes(a) + metas_bytes(b),
        a.len() == 1 ==> metas_bytes(a) == meta_bytes(a[0]),
    decreases a.len(),
{
    reveal_with_fuel(metas_bytes, 2);
    if a.len() == 0 {
        assert(a + b =~= b);
        assert(metas_bytes(a) + metas_bytes(b) =~= metas_bytes(b));
    } else {
        assert((a + b).drop_first() =~= a.drop_first() + b);
        lemma_metas_concat(a.drop_first(), b);
        assert(meta_bytes(a[0]) + (metas_bytes(a.drop_first()) + metas_bytes(b)) =~= (meta_bytes(
            a[0],
        ) + metas_bytes(a.drop_first())) + metas_bytes(b));
    }
    if a.len() == 1 {
        assert(a.drop_first() =~= Seq::empty());
        assert(metas_bytes(a) =~= meta_bytes(a[0]));
    }
}

/// How the index is laid out: the number of blocks in four bytes, the blocks, the largest time in
/// eight bytes, and the checksum of what stands between the number and itself in four bytes.
pub proof fn lemma_index_layout(ms: Seq<MetaView>, max_ts: u64)
    requires
        ms.len() <= 0xffff_ffff,
    ensures
        ({
            let b = block_meta_bytes(ms, max_ts);
            &&& b.len() == metas_bytes(ms).len() + 16
            &&& codec::get32(b, 0) == ms.len()
            &&& b.subrange(4, b.len() - 12) == metas_bytes(ms)
            &&& codec::get64(b, b.len() - 12) == max_ts
            &&& codec::get32(b, b.len() - 4) == hash::crc32_of(b.subrange(4, b.len() - 4))
        }),
{
    let body = meta_body(ms, max_ts);
    let b = block_meta_bytes(ms, max_ts);
    let n = metas_bytes(ms).len() as int;
    lemma_body_parts(ms, max_ts);
    codec::lemma_framed(ms.len() as u32, body, hash::crc32_of(body));
    codec::lemma_holds_at_sub(b, 4, body, 0, metas_bytes(ms));
    codec::lemma_holds_at_sub(b, 4, body, n, codec::be64(max_ts));
    codec::lemma_get64(b, 4 + n, max_ts);
}

proof fn lemma_body_parts(ms: Seq<MetaView>, max_ts: u64)
    ensures
        meta_body(ms, max_ts).len() == metas_bytes(ms).len() + 8,
        codec::holds_at(meta_body(ms, max_ts), 0, metas_bytes(ms)),
        codec::holds_at(
            meta_body(ms, max_ts),
            metas_bytes(ms).len() as int,
            codec::be64(max_ts),
        ),
        codec::be64(max_ts).len() == 8,
{
    reveal(meta_body);
    codec::lemma_holds_at_head(metas_bytes(ms), codec::be64(max_ts));
    codec::lemma_holds_at_tail(metas_bytes(ms), codec::be64(max_ts));
}

/// An index is read only where its checksum is right; one whose checksum is wrong is refused as such,
/// and one that is too short, or whose blocks do not fit into it, as corrupt.
pub proof fn lemma_index_checked(buf: Seq<u8>)
    ensures
        buf.len() < 8 ==> block_meta_decoded(buf) == Err::<(Seq<MetaView>, u64), StorageError>(
            StorageError::CorruptMeta,
        ),
        buf.len() >= 8 && hash::crc32_of(buf.subrange(4, buf.len() - 4)) != codec::get32(
            buf,
            buf.len() - 4,
        ) ==> block_meta_decoded(buf) == Err::<(Seq<MetaView>, u64), StorageError>(
            StorageError::MetaChecksumMismatch,
        ),
        block_meta_decoded(buf) matches Ok((ms, max_ts)) ==> {
            &&& buf.len() >= 8
            &&& hash::crc32_of(buf.subrange(4, buf.len() - 4)) == codec::get32(buf, buf.len() - 4)
            &&& ms.len() == codec::get32(buf, 0)
        },
        block_meta_decoded(buf) == Err::<(Seq<MetaView>, u64), StorageError>(
            StorageError::MetaChecksumMismatch,
        ) ==> hash::crc32_of(buf.subrange(4, buf.len() - 4)) != codec::get32(buf, buf.len() - 4),
{
    lemma_metas_count(buf, 4, codec::get32(buf, 0) as nat);
}

proof fn lemma_metas_count(s: Seq<u8>, pos: int, n: nat)
    ensures
        parse_metas(s, pos, n) matches Some((ms, _)) ==> ms.len() == n,
    decreases n,
{
    if n > 0 {
        if let Some((_, p)) = parse_meta(s, pos) {
            lemma_metas_count(s, p, (n - 1) as nat);
        }
    }
}

proof fn lemma_key_parsed(s: Seq<u8>, pos: int)
    requires
        0 <= pos,
    ensures
        parse_key(s, pos) matches Some((k, p)) ==> k.key.len() <= 0xffff && codec::holds_at(
            s,
            pos,
            key_bytes(k),
        ) && p == pos + key_bytes(k).len(),
{
    if let Some((k, p)) = parse_key(s, pos) {
        let n = k.key.len() as int;
        codec::lemma_put16(s, pos);
        codec::lemma_put32(s, pos + 2 + n);
        assert(key_bytes(k) =~= s.subrange(pos, pos + 10 + n));
    }
}

proof fn lemma_meta_parsed(s: Seq<u8>, pos: int)
    requires
        0 <= pos,
    ensures
        parse_meta(s, pos) matches Some((m, p)) ==> meta_fits(m) && codec::holds_at(
            s,
            pos,
            meta_bytes(m),
        ) && p == pos + meta_bytes(m).len(),
{
    reveal(parse_meta);
    if let Some((m, p)) = parse_meta(s, pos) {
        lemma_key_parsed(s, pos + 4);
        lemma_key_parsed(s, pos + 4 + key_bytes(m.first_key).len());
        lemma_meta_parts(s, pos, m);
    }
}

proof fn lemma_meta_parts(s: Seq<u8>, pos: int, m: MetaView)
    requires
        0 <= pos,
        pos + 4 <= s.len(),
        m.offset == codec::get32(s, pos),
        codec::holds_at(s, pos + 4, key_bytes(m.first_key)),
        codec::holds_at(s, pos + 4 + key_bytes(m.first_key).len(), key_bytes(m.last_key)),
    ensures
        codec::holds_at(s, pos, meta_bytes(m)),
        meta_bytes(m).len() == 4 + key_bytes(m.first_key).len() + key_bytes(m.last_key).len(),
{
    reveal(meta_bytes);
    let a = codec::be32(m.offset as u32);
    let b = key_bytes(m.first_key);
    let c = key_bytes(m.last_key);
    codec::lemma_put32(s, pos);
    assert(codec::holds_at(s, pos, a));
    codec::lemma_holds_at_join(s, pos + 4, b, c);
    codec::lemma_holds_at_join(s, pos, a, b + c);
}

proof fn lemma_metas_parsed(s: Seq<u8>, pos: int, n: nat)
    requires
        0 <= pos <= s.len(),
    ensures
        parse_metas(s, pos, n) matches Some((ms, p)) ==> ms.len() == n && metas_fit(ms)
            && codec::holds_at(s, pos, metas_bytes(ms)) && p == pos + metas_bytes(ms).len(),
    decreases n,
{
    if n == 0 {
        assert(s.subrange(pos, pos) =~= Seq::empty());
    } else if let Some((m, q)) = parse_meta(s, pos) {
        lemma_meta_parsed(s, pos);
        lemma_metas_parsed(s, q, (n - 1) as nat);
        if let Some((rest, p)) = parse_metas(s, q, (n - 1) as nat) {
            let ms = seq![m] + rest;
            assert(ms.drop_first() =~= rest);
            assert forall|i: int| 0 <= i < ms.len() implies meta_fits(#[trigger] ms[i]) by {
                if i > 0 {
                    assert(ms[i] == rest[i - 1]);
                }
            }
            codec::lemma_holds_at_join(s, pos, meta_bytes(m), metas_bytes(rest));
        }
    }
}

/// An index is read as given blocks and a given largest time exactly if its checksum is right, it
/// begins with the number of these blocks, they stand behind it as they are written, and the time
/// behind them.
pub proof fn lemma_index_exactly(buf: Seq<u8>, ms: Seq<MetaView>, max_ts: u64)
    ensures
        block_meta_decoded(buf) == Ok::<(Seq<MetaView>, u64), StorageError>((ms, max_ts)) <==> {
            let n = metas_bytes(ms).len() as int;
            &&& buf.len() >= n + 16
            &&& hash::crc32_of(buf.subrange(4, buf.len() - 4)) == codec::get32(buf, buf.len() - 4)
            &&& codec::get32(buf, 0) == ms.len()
            &&& metas_fit(ms)
            &&& buf.subrange(4, 4 + n) == metas_bytes(ms)
            &&& codec::get64(buf, 4 + n) == max_ts
        },
{
    let n = metas_bytes(ms).len() as int;
    if buf.len() >= 8 {
        lemma_metas_parsed(buf, 4, codec::get32(buf, 0) as nat);
    }
    if buf.len() >= n + 16 && codec::get32(buf, 0) == ms.len() && metas_fit(ms) && buf.subrange(
        4,
        4 + n,
    ) == metas_bytes(ms) {
        lemma_parse_metas(buf, 4, ms);
    }
}

/// A read gives the bytes that stand there, where all of them do. Reading nothing always works.
pub proof fn lemma_read_exactly(data: Seq<u8>, offset: int, len: int)
    requires
        0 <= offset,
        0 <= len,
    ensures
        offset + len <= data.len() ==> read_at(data, offset, len) == Ok::<Seq<u8>, StorageError>(
            data.subrange(offset, offset + len),
        ),
        offset + len > data.len() && len > 0 ==> read_at(data, offset, len) == Err::<
            Seq<u8>,
            StorageError,
        >(StorageError::ReadOutOfRange),
        len == 0 ==> read_at(data, offset, len) == Ok::<Seq<u8>, StorageError>(Seq::empty()),
{
    if len == 0 && offset <= data.len() {
        assert(data.subrange(offset, offset) =~= Seq::empty());
    }
}

/// A stored block is read only where its checksum, the last four bytes, is that of the others; one
/// whose checksum is wrong is refused as such, and one that is too short or cannot be decoded as
/// corrupt.
pub proof fn lemma_block_checked(raw: Seq<u8>)
    ensures
        match block_decoded(raw) {
            Ok(es) => {
                &&& raw.len() >= 4
                &&& hash::crc32_of(raw.take(raw.len() - 4)) == codec::get32(raw, raw.len() - 4)
                &&& block::decodable(raw.take(raw.len() - 4))
                &&& es == block::decoded(raw.take(raw.len() - 4))
            },
            Err(e) => {
                &&& raw.len() < 4 ==> e == StorageError::CorruptBlock
                &&& raw.len() >= 4 && hash::crc32_of(raw.take(raw.len() - 4)) != codec::get32(
                    raw,
                    raw.len() - 4,
                ) ==> e == StorageError::BlockChecksumMismatch
                &&& raw.len() >= 4 && hash::crc32_of(raw.take(raw.len() - 4)) == codec::get32(
                    raw,
                    raw.len() - 4,
                ) ==> e == StorageError::CorruptBlock && !block::decodable(
                    raw.take(raw.len() - 4),
                )
            },
        },
{
}

/// The bytes of a block reach from where it stands to where the next one does, those of the last one
/// to where the index begins.
pub proof fn lemma_block_place(t: TableView, i: int)
    requires
        t.data is Some,
        0 <= i < t.metas.len(),
    ensures
        ({
            let from = t.metas[i].offset as int;
            let to = if i == t.metas.len() - 1 {
                t.meta_offset as int
            } else {
                t.metas[i + 1].offset as int
            };
            &&& from <= to <= t.data->0.len() ==> t.block(i) == block_decoded(
                t.data->0.subrange(from, to),
            )
            &&& to < from ==> t.block(i) == Err::<Seq<Entry>, StorageError>(
                StorageError::CorruptTable,
            )
            &&& from < to && t.data->0.len() < to ==> t.block(i) == Err::<Seq<Entry>, StorageError>(
                StorageError::ReadOutOfRange,
            )
        }),
{
    let from = t.block_start(i);
    let to = t.block_end(i);
    if from == to && to <= t.data->0.len() {
        assert(t.data->0.subrange(from, to) =~= Seq::empty());
    }
}

/// A table is read block by block: the entries of each block are followed by those of the next ones,
/// and a block that cannot be read ends the reading with its error.
pub proof fn lemma_tail_exactly(t: TableView, i: int)
    requires
        0 <= i,
    ensures
        i >= t.metas.len() ==> t.tail(i).entries.len() == 0 && t.tail(i).fault is None,
        i < t.metas.len() ==> match t.block(i) {
            Ok(es) => {
                &&& t.tail(i).entries == es + t.tail(i + 1).entries
                &&& t.tail(i).fault == t.tail(i + 1).fault
            },
            Err(e) => t.tail(i).entries.len() == 0 && t.tail(i).fault == Some(e),
        },
{
}

/// A table that is read to the end without an error has been read whole: every block could be read,
/// and the entries are those of all blocks one after the other.
pub proof fn lemma_tail_whole(t: TableView, i: int)
    requires
        0 <= i <= t.metas.len(),
        t.tail(i).fault is None,
    ensures
        forall|j: int| i <= j < t.metas.len() ==> (#[trigger] t.block(j)) is Ok,
        t.tail(i).entries == Seq::new(
            (t.metas.len() - i) as nat,
            |j: int| t.block(i + j)->Ok_0,
        ).flatten(),
    decreases t.metas.len() - i,
{
    let lists = Seq::new((t.metas.len() - i) as nat, |j: int| t.block(i + j)->Ok_0);
    if i < t.metas.len() {
        assert(t.block(i) is Ok);
        lemma_tail_whole(t, i + 1);
        let rest = Seq::new(
            (t.metas.len() - (i + 1)) as nat,
            |j: int| t.block(i + 1 + j)->Ok_0,
        );
        assert(lists.drop_first() =~= rest);
        assert(lists.first() == t.block(i)->Ok_0);
    } else {
        assert(lists =~= Seq::empty());
    }
}

/// What a table that could be opened is: its last eight bytes say where the index and the filter
/// stand, both of them could be read from there, and the keys at its ends are those that the index
/// gives.
pub proof fn lemma_opened_exactly(id: usize, data: Seq<u8>)
    requires
        data.len() <= u64::MAX,
    ensures
        opened(id, data) matches Ok(t) ==> {
            let mo = codec::get32(data, data.len() - 8) as int;
            let bo = codec::get32(data, data.len() - 4) as int;
            &&& data.len() >= 8
            &&& mo <= bo <= data.len() - 8
            &&& block_meta_decoded(data.subrange(mo, bo)) == Ok::<
                (Seq<MetaView>, u64),
                StorageError,
            >((t.metas, t.max_ts))
            &&& t.bloom matches Some(b) && bloom::bloom_decoded(
                data.subrange(bo, data.len() - 8),
            ) == Ok::<bloom::BloomView, StorageError>(b)
            &&& t.id == id
            &&& t.data == Some(data)
            &&& t.size == data.len()
            &&& t.meta_offset == mo
            &&& t.metas.len() > 0 ==> t.first_key == t.metas[0].first_key && t.last_key
                == t.metas[t.metas.len() - 1].last_key
        },
        data.len() < 8 ==> opened(id, data) == Err::<TableView, StorageError>(
            StorageError::CorruptTable,
        ),
{
    let mo = codec::get32(data, data.len() - 8) as int;
    let bo = codec::get32(data, data.len() - 4) as int;
    if mo == bo && bo <= data.len() - 8 {
        assert(data.subrange(mo, bo) =~= Seq::empty());
    }
}

/// Where the first keys of the blocks ascend, the block to search for a key is the last one that does
/// not begin behind the key, and the first one where all do.
pub proof fn lemma_search_block(t: TableView, key: Key, i: int)
    requires
        t.metas.len() > 0,
        forall|a: int, b: int|
            0 <= a < b < t.metas.len() ==> key::key_lt(
                #[trigger] t.metas[a].first_key,
                #[trigger] t.metas[b].first_key,
            ),
        t.search_block(key, i),
    ensures
        0 <= i < t.metas.len(),
        i > 0 ==> !key::key_lt(key, t.metas[i].first_key),
        forall|j: int|
            i < j < t.metas.len() ==> key::key_lt(key, #[trigger] t.metas[j].first_key),
{
    key::lemma_key_lt_total(t.metas[i].first_key, key);
    if i > 0 && key::key_lt(key, t.metas[i].first_key) {
        assert(t.starts_by(i, key));
        if t.metas[i].first_key != key {
            key::lemma_key_lt_asymmetric(t.metas[i].first_key, key);
        } else {
            key::lemma_bytes_lt_irreflexive(key.key);
        }
    }
    assert forall|j: int| i < j < t.metas.len() implies key::key_lt(
        key,
        #[trigger] t.metas[j].first_key,
    ) by {
        if t.starts_by(i, key) {
            key::lemma_key_lt_total(t.metas[i + 1].first_key, key);
            if i + 1 < j {
                key::lemma_key_lt_transitive(
                    key,
                    t.metas[i + 1].first_key,
                    t.metas[j].first_key,
                );
            }
        } else {
            key::lemma_key_lt_transitive(key, t.metas[0].first_key, t.metas[j].first_key);
        }
    }
}

/// What is read from the bytes of a data block and its checksum.
pub open spec fn block_decoded(raw: Seq<u8>) -> Result<Seq<Entry>, StorageError> {
    if raw.len() < 4 {
        Err(StorageError::CorruptBlock)
    } else if hash::crc32_of(raw.take(raw.len() - 4)) != codec::get32(raw, raw.len() - 4) {
        Err(StorageError::BlockChecksumMismatch)
    } else if !block::decodable(raw.take(raw.len() - 4)) {
        Err(StorageError::CorruptBlock)
    } else {
        Ok(block::decoded(raw.take(raw.len() - 4)))
    }
}

/// A table.
pub struct SsTable {
    /// The file.
    pub(crate) file: FileObject,
    /// The metadata of the data blocks.
    pub(crate) block_meta: Vec<BlockMeta>,
    /// Where the metadata begins in the file.
    pub(crate) block_meta_offset: usize,
    pub(crate) id: usize,
    pub(crate) first_key: KeyBytes,
    pub(crate) last_key: KeyBytes,
    pub(crate) bloom: Option<Bloom>,
    /// The highest timestamp in the table.
    pub(crate) max_ts: u64,
}

impl View for SsTable {
    type V = TableView;

    closed spec fn view(&self) -> TableView {
        TableView {
            id: self.id,
            data: self.file.bytes(),
            size: self.file.length(),
            metas: metas_view(self.block_meta@),
            meta_offset: self.block_meta_offset,
            first_key: self.first_key@,
            last_key: self.last_key@,
            bloom: match self.bloom {
                Some(b) => Some(b@),
                None => None,
            },
            max_ts: self.max_ts,
        }
    }
}

impl SsTable {
    /// A table with blocks has a file to read them from.
    pub closed spec fn wf(&self) -> bool {
        &&& self.file.wf()
        &&& self@.metas.len() > 0 ==> self@.data is Some
    }

    /// Opens the table in a file.
    pub fn open(id: usize, file: FileObject) -> (r: Result<Self, StorageError>)
        requires
            file.wf(),
            file.bytes() is Some,
        ensures
            match r {
                Ok(t) => t.wf() && opened(id, file.bytes()->0) == Ok::<TableView, StorageError>(
                    t@,
                ),
                Err(e) => opened(id, file.bytes()->0) == Err::<TableView, StorageError>(e),
            },
    {
        let ghost data = file.bytes()->0;
        proof {
            file.lemma_length();
        }
        let size: u64 = file.size();
        if size < 8 {
            return Err(StorageError::CorruptTable);
        }
        let trailer: Vec<u8> = match file.read(size - 8, 8) {
            Ok(v) => v,
            Err(e) => {
                return Err(e);
            },
        };
        assert(trailer@ =~= data.subrange(size - 8, size as int));
        let meta_offset: u32 = read_u32(trailer.as_slice(), 0);
        let bloom_offset: u32 = read_u32(trailer.as_slice(), 4);
        proof {
            lemma_get32_at(data, size - 8, trailer@);
            assert(meta_offset == codec::get32(data, size - 8));
            assert(bloom_offset == codec::get32(data, size - 4));
        }
        if bloom_offset < meta_offset {
            return Err(StorageError::CorruptTable);
        }
        let meta_raw: Vec<u8> = match file.read(
            meta_offset as u64,
            (bloom_offset - meta_offset) as u64,
        ) {
            Ok(v) => v,
            Err(e) => {
                return Err(e);
            },
        };
        let (block_meta, max_ts): (Vec<BlockMeta>, u64) = match BlockMeta::decode_block_meta(
            meta_raw.as_slice(),
        ) {
            Ok(x) => x,
            Err(e) => {
                return Err(e);
            },
        };
        if bloom_offset as u64 > size - 8 {
            return Err(StorageError::CorruptTable);
        }
        let bloom_raw: Vec<u8> = match file.read(
            bloom_offset as u64,
            size - 8 - bloom_offset as u64,
        ) {
            Ok(v) => v,
            Err(e) => {
                return Err(e);
            },
        };
        assert(bloom_raw@ =~= data.subrange(bloom_offset as int, size - 8));
        let bloom: Bloom = match Bloom::decode(bloom_raw.as_slice()) {
            Ok(b) => b,
            Err(e) => {
                return Err(e);
            },
        };
        let first_key: KeyBytes = first_meta_key(&block_meta);
        let last_key: KeyBytes = last_meta_key(&block_meta);
        Ok(
            SsTable {
                file,
                block_meta,
                block_meta_offset: meta_offset as usize,
                id,
                first_key,
                last_key,
                bloom: Some(bloom),
                max_ts,
            },
        )
    }

    /// A table without blocks that has only a size and a key range.
    pub fn create_meta_only(
        id: usize,
        file_size: u64,
        first_key: KeyBytes,
        last_key: KeyBytes,
    ) -> (r: Self)
        ensures
            r.wf(),
            r@ == (TableView {
                id,
                data: None,
                size: file_size,
                metas: Seq::empty(),
                meta_offset: 0,
                first_key: first_key@,
                last_key: last_key@,
                bloom: None,
                max_ts: 0,
            }),
    {
        let r = SsTable {
            file: FileObject { data: None, size: file_size },
            block_meta: Vec::new(),
            block_meta_offset: 0,
            id,
            first_key,
            last_key,
            bloom: None,
            max_ts: 0,
        };
        assert(r@.metas =~= Seq::empty());
        r
    }

    /// Reads a block from the file.
    pub fn read_block(&self, block_idx: usize) -> (r: Result<Arc<Block>, StorageError>)
        requires
            self.wf(),
            block_idx < self@.metas.len(),
        ensures
            match r {
                Ok(b) => b.wf() && self@.block(block_idx as int) == Ok::<
                    Seq<Entry>,
                    StorageError,
                >(b@),
                Err(e) => self@.block(block_idx as int) == Err::<Seq<Entry>, StorageError>(e),
            },
    {
        let offset: usize = self.block_meta[block_idx].offset;
        assert(block_idx < self.block_meta.len());
        let end: usize = if block_idx + 1 < self.block_meta.len() {
            self.block_meta[block_idx + 1].offset
        } else {
            self.block_meta_offset
        };
        assert(offset == self@.block_start(block_idx as int));
        assert(end == self@.block_end(block_idx as int));
        if end < offset {
            return Err(StorageError::CorruptTable);
        }
        let raw: Vec<u8> = match self.file.read(offset as u64, (end - offset) as u64) {
            Ok(v) => v,
            Err(e) => {
                return Err(e);
            },
        };
        let len: usize = raw.len();
        if len < 4 {
            return Err(StorageError::CorruptBlock);
        }
        let body: &[u8] = vstd::slice::slice_subrange(raw.as_slice(), 0, len - 4);
        assert(body@ =~= raw@.take(len - 4));
        if hash::crc32(body) != read_u32(raw.as_slice(), len - 4) {
            return Err(StorageError::BlockChecksumMismatch);
        }
        match Block::decode(body) {
            Ok(b) => Ok(Arc::new(b)),
            Err(e) => Err(e),
        }
    }

    /// Reads a block, taking the one that a cache holds where there is one. The flag says whether
    /// the block was read from the file and belongs into the cache.
    pub fn read_block_cached(&self, block_idx: usize, cached: Option<Arc<Block>>) -> (r: Result<
        (Arc<Block>, bool),
        StorageError,
    >)
        requires
            self.wf(),
            block_idx < self@.metas.len(),
        ensures
            match cached {
                Some(b) => r == Ok::<(Arc<Block>, bool), StorageError>((b, false)),
                None => match r {
                    Ok((b, fresh)) => fresh && b.wf() && self@.block(block_idx as int) == Ok::<
                        Seq<Entry>,
                        StorageError,
                    >(b@),
                    Err(e) => self@.block(block_idx as int) == Err::<Seq<Entry>, StorageError>(e),
                },
            },
    {
        match cached {
            Some(b) => Ok((b, false)),
            None => match self.read_block(block_idx) {
                Ok(b) => Ok((b, true)),
                Err(e) => Err(e),
            },
        }
    }

    /// Finds the block that may contain `key`: the last one whose first key is not behind it, and
    /// the first one where there is none.
    pub fn find_block_idx(&self, key: KeySlice<'_>) -> (r: usize)
        requires
            self.wf(),
        ensures
            self@.search_block(key@, r as int),
    {
        let n: usize = self.block_meta.len();
        let mut lo: usize = 0;
        let mut hi: usize = n;
        while lo < hi
            invariant
                lo <= hi <= n,
                n == self.block_meta.len(),
                n == self@.metas.len(),
                lo > 0 ==> self@.starts_by(lo - 1, key@),
                hi < n ==> !self@.starts_by(hi as int, key@),
            decreases hi - lo,
        {
            let mid: usize = lo + (hi - lo) / 2;
            if key.precedes(self.block_meta[mid].first_key.as_key_slice()) {
                proof {
                    key::lemma_key_lt_asymmetric(key@, self@.metas[mid as int].first_key);
                    assert(!self@.starts_by(mid as int, key@));
                }
                hi = mid;
            } else {
                proof {
                    key::lemma_key_lt_total(key@, self@.metas[mid as int].first_key);
                    assert(self@.starts_by(mid as int, key@));
                }
                lo = mid + 1;
            }
        }
        if lo == 0 {
            0
        } else {
            lo - 1
        }
    }

    /// The number of data blocks.
    pub fn num_of_blocks(&self) -> (r: usize)
        ensures
            r == self@.metas.len(),
    {
        self.block_meta.len()
    }

    /// The first key.
    pub fn first_key(&self) -> (r: &KeyBytes)
        ensures
            r@ == self@.first_key,
    {
        &self.first_key
    }

    /// The last key.
    pub fn last_key(&self) -> (r: &KeyBytes)
        ensures
            r@ == self@.last_key,
    {
        &self.last_key
    }

    /// The size of the file.
    pub fn table_size(&self) -> (r: u64)
        ensures
            r == self@.size,
    {
        self.file.size()
    }

    /// The number of the table.
    pub fn sst_id(&self) -> (r: usize)
        ensures
            r == self@.id,
    {
        self.id
    }

    /// The highest timestamp in the table.
    pub fn max_ts(&self) -> (r: u64)
        ensures
            r == self@.max_ts,
    {
        self.max_ts
    }

    /// The file of the table.
    pub fn file(&self) -> (r: &FileObject)
        ensures
            r.bytes() == self@.data,
            r.length() == self@.size,
    {
        &self.file
    }

    /// The bloom filter over the keys of the table.
    pub fn bloom(&self) -> (r: Option<&Bloom>)
        ensures
            match r {
                Some(b) => self@.bloom == Some(b@),
                None => self@.bloom is None,
            },
    {
        match &self.bloom {
            Some(b) => Some(b),
            None => None,
        }
    }
}

pub(crate) fn first_meta_key(block_meta: &Vec<BlockMeta>) -> (r: KeyBytes)
    ensures
        r@ == first_of(metas_view(block_meta@)),
{
    if block_meta.len() > 0 {
        block_meta[0].first_key.clone()
    } else {
        KeyVec::from_vec_with_ts(Vec::new(), TS_DEFAULT)
    }
}

pub(crate) fn last_meta_key(block_meta: &Vec<BlockMeta>) -> (r: KeyBytes)
    ensures
        r@ == last_of(metas_view(block_meta@)),
{
    if block_meta.len() > 0 {
        block_meta[block_meta.len() - 1].last_key.clone()
    } else {
        KeyVec::from_vec_with_ts(Vec::new(), TS_DEFAULT)
    }
}

proof fn lemma_get32_at(data: Seq<u8>, pos: int, part: Seq<u8>)
    requires
        0 <= pos,
        pos + 8 <= data.len(),
        part == data.subrange(pos, pos + 8),
    ensures
        codec::get32(part, 0) == codec::get32(data, pos),
        codec::get32(part, 4) == codec::get32(data, pos + 4),
{
    assert forall|i: int| 0 <= i < 8 implies #[trigger] part[i] == data[pos + i] by {}
}

} // verus!
