//! Blocks: the unit in which a table is read and cached.
//!
//! A block holds the entries one behind the other, then the two-byte offset of each entry, then
//! the two-byte number of entries. An entry stores its key relative to the first key of the block:
//! the length of the common prefix (two bytes), the length of the rest (two bytes), the rest, the
//! version (eight bytes), the length of the value (two bytes) and the value.

use vstd::prelude::*;

use crate::codec;
use crate::codec::{put_slice, put_u16, read_u16};
use crate::error::StorageError;
use crate::key::{Entry, Key};

pub mod builder;
pub mod iterator;

verus! {

/// An entry that the two-byte length fields of a block can describe.
pub open spec fn valid_entry(e: Entry) -> bool {
    &&& 0 < e.key.key.len() <= 0xffff
    &&& e.value.len() <= 0xffff
}

pub open spec fn valid_entries(es: Seq<Entry>) -> bool {
    forall|i: int| 0 <= i < es.len() ==> #[trigger] valid_entry(es[i])
}

pub proof fn lemma_valid_concat(a: Seq<Entry>, b: Seq<Entry>)
    requires
        valid_entries(a),
        valid_entries(b),
    ensures
        valid_entries(a + b),
{
    assert forall|i: int| 0 <= i < (a + b).len() implies #[trigger] valid_entry((a + b)[i]) by {
        if i < a.len() {
            assert(valid_entry(a[i]));
        } else {
            assert(valid_entry(b[i - a.len()]));
        }
    }
}

/// The length of the longest common prefix.
pub open spec fn common_prefix(a: Seq<u8>, b: Seq<u8>) -> nat
    decreases a.len(),
{
    if a.len() == 0 || b.len() == 0 || a[0] != b[0] {
        0
    } else {
        1 + common_prefix(a.drop_first(), b.drop_first())
    }
}

pub proof fn lemma_common_prefix(a: Seq<u8>, b: Seq<u8>)
    ensures
        common_prefix(a, b) <= a.len(),
        common_prefix(a, b) <= b.len(),
        a.take(common_prefix(a, b) as int) == b.take(common_prefix(a, b) as int),
    decreases a.len(),
{
    let n = common_prefix(a, b) as int;
    if a.len() == 0 || b.len() == 0 || a[0] != b[0] {
        assert(a.take(0) =~= b.take(0));
    } else {
        lemma_common_prefix(a.drop_first(), b.drop_first());
        assert(a.take(n) =~= seq![a[0]] + a.drop_first().take(n - 1));
        assert(b.take(n) =~= seq![b[0]] + b.drop_first().take(n - 1));
    }
}

/// The bytes of an entry in a block whose first key is `first`.
pub open spec fn entry_bytes(first: Seq<u8>, e: Entry) -> Seq<u8> {
    let n = common_prefix(first, e.key.key);
    let value = codec::be16(e.value.len() as u16) + e.value;
    let rest = e.key.key.skip(n as int) + (codec::be64(e.key.ts) + value);
    codec::be16(n as u16) + (codec::be16((e.key.key.len() - n) as u16) + rest)
}

/// The number of bytes of an entry.
pub proof fn lemma_entry_len(first: Seq<u8>, e: Entry)
    ensures
        entry_bytes(first, e).len() == 14 + e.key.key.len() - common_prefix(first, e.key.key)
            + e.value.len(),
        entry_bytes(first, e).len() >= 14,
{
    lemma_common_prefix(first, e.key.key);
}

/// The first key of the entries, without its version.
pub open spec fn first_bytes(es: Seq<Entry>) -> Seq<u8> {
    if es.len() == 0 {
        Seq::empty()
    } else {
        es[0].key.key
    }
}

/// The data section of the block that holds the entries `es`.
pub open spec fn block_data(es: Seq<Entry>) -> Seq<u8>
    decreases es.len(),
{
    if es.len() == 0 {
        Seq::empty()
    } else {
        block_data(es.drop_last()) + entry_bytes(first_bytes(es.drop_last()), es.last())
    }
}

/// The offsets of the entries of the block that holds `es`.
pub open spec fn block_offsets(es: Seq<Entry>) -> Seq<u16> {
    Seq::new(es.len(), |i: int| block_data(es.take(i)).len() as u16)
}

/// The offsets, encoded one behind the other.
pub open spec fn offsets_bytes(offsets: Seq<u16>) -> Seq<u8>
    decreases offsets.len(),
{
    if offsets.len() == 0 {
        Seq::empty()
    } else {
        offsets_bytes(offsets.drop_last()) + codec::be16(offsets.last())
    }
}

/// The bytes of a block with the given data section and offsets.
pub open spec fn raw_block_bytes(data: Seq<u8>, offsets: Seq<u16>) -> Seq<u8> {
    data + offsets_bytes(offsets) + codec::be16(offsets.len() as u16)
}

/// The bytes of the block that holds the entries `es`.
pub open spec fn block_bytes(es: Seq<Entry>) -> Seq<u8> {
    raw_block_bytes(block_data(es), block_offsets(es))
}

pub open spec fn overlap_at(d: Seq<u8>, o: int) -> int {
    codec::get16(d, o) as int
}

pub open spec fn rest_at(d: Seq<u8>, o: int) -> int {
    codec::get16(d, o + 2) as int
}

pub open spec fn value_start_at(d: Seq<u8>, o: int) -> int {
    o + 14 + rest_at(d, o)
}

pub open spec fn value_end_at(d: Seq<u8>, o: int) -> int {
    value_start_at(d, o) + codec::get16(d, o + 12 + rest_at(d, o))
}

/// An entry can be read at `o` when the first key of the block has `first_len` bytes.
pub open spec fn entry_fits(d: Seq<u8>, o: int, first_len: int) -> bool {
    &&& 0 <= o
    &&& o + 4 <= d.len()
    &&& overlap_at(d, o) <= first_len
    &&& 0 < overlap_at(d, o) + rest_at(d, o) <= 0xffff
    &&& value_start_at(d, o) <= d.len()
    &&& value_end_at(d, o) <= d.len()
}

/// The entry at `o` in a block whose first key is `first`.
pub open spec fn entry_at(d: Seq<u8>, o: int, first: Seq<u8>) -> Entry {
    Entry {
        key: Key {
            key: first.take(overlap_at(d, o)) + d.subrange(o + 4, o + 4 + rest_at(d, o)),
            ts: codec::get64(d, o + 4 + rest_at(d, o)),
        },
        value: d.subrange(value_start_at(d, o), value_end_at(d, o)),
    }
}

/// The first key that the data section and the offsets describe.
pub open spec fn raw_first(d: Seq<u8>, offsets: Seq<u16>) -> Seq<u8> {
    if offsets.len() == 0 {
        Seq::empty()
    } else {
        entry_at(d, offsets[0] as int, Seq::empty()).key.key
    }
}

/// The data section and the offsets describe entries.
pub open spec fn raw_block_ok(d: Seq<u8>, offsets: Seq<u16>) -> bool {
    &&& offsets.len() > 0 ==> entry_fits(d, offsets[0] as int, 0)
    &&& forall|i: int|
        0 <= i < offsets.len() ==> entry_fits(
            d,
            #[trigger] offsets[i] as int,
            raw_first(d, offsets).len() as int,
        )
}

/// The entries that the data section and the offsets describe.
pub open spec fn raw_entries(d: Seq<u8>, offsets: Seq<u16>) -> Seq<Entry> {
    Seq::new(offsets.len(), |i: int| entry_at(d, offsets[i] as int, raw_first(d, offsets)))
}

/// The number of data bytes that `raw` leaves before its offsets.
pub open spec fn raw_data_len(raw: Seq<u8>) -> int {
    raw.len() - 2 - 2 * codec::get16(raw, raw.len() - 2)
}

pub open spec fn raw_offsets(raw: Seq<u8>) -> Seq<u16> {
    Seq::new(
        codec::get16(raw, raw.len() - 2) as nat,
        |i: int| codec::get16(raw, raw_data_len(raw) + 2 * i),
    )
}

pub open spec fn raw_data(raw: Seq<u8>) -> Seq<u8> {
    raw.take(raw_data_len(raw))
}

/// `raw` is a block.
pub open spec fn decodable(raw: Seq<u8>) -> bool {
    &&& raw.len() >= 2
    &&& raw_data_len(raw) >= 0
    &&& raw_block_ok(raw_data(raw), raw_offsets(raw))
}

/// The entries of the block `raw`.
pub open spec fn decoded(raw: Seq<u8>) -> Seq<Entry> {
    raw_entries(raw_data(raw), raw_offsets(raw))
}

/// What was written as an entry is read back as that entry.
pub proof fn lemma_entry_round_trip(d: Seq<u8>, o: int, first: Seq<u8>, e: Entry)
    requires
        valid_entry(e),
        first.len() <= 0xffff,
        codec::holds_at(d, o, entry_bytes(first, e)),
    ensures
        entry_fits(d, o, first.len() as int),
        entry_at(d, o, first) == e,
        value_end_at(d, o) == o + entry_bytes(first, e).len(),
        overlap_at(d, o) == common_prefix(first, e.key.key),
{
    use_entry_parts(d, o, first, e);
    lemma_common_prefix(first, e.key.key);
    let n = common_prefix(first, e.key.key) as int;
    let k = e.key.key;
    assert(first.take(n) + k.skip(n) =~= k);
    assert(entry_at(d, o, first) =~= e);
}

proof fn use_entry_parts(d: Seq<u8>, o: int, first: Seq<u8>, e: Entry)
    requires
        valid_entry(e),
        first.len() <= 0xffff,
        codec::holds_at(d, o, entry_bytes(first, e)),
    ensures
        ({
            let n = common_prefix(first, e.key.key) as int;
            let r = e.key.key.len() - n;
            &&& codec::get16(d, o) == n
            &&& codec::get16(d, o + 2) == r
            &&& d.subrange(o + 4, o + 4 + r) == e.key.key.skip(n)
            &&& codec::get64(d, o + 4 + r) == e.key.ts
            &&& codec::get16(d, o + 12 + r) == e.value.len()
            &&& d.subrange(o + 14 + r, o + 14 + r + e.value.len()) == e.value
            &&& 0 <= o
            &&& o + 14 + r + e.value.len() <= d.len()
            &&& entry_bytes(first, e).len() == 14 + r + e.value.len()
        }),
{
    lemma_common_prefix(first, e.key.key);
    let n = common_prefix(first, e.key.key);
    let r = (e.key.key.len() - n) as int;
    let p1 = codec::be16(n as u16);
    let p2 = codec::be16(r as u16);
    let p3 = e.key.key.skip(n as int);
    let p4 = codec::be64(e.key.ts);
    let p5 = codec::be16(e.value.len() as u16);
    let p6 = e.value;
    codec::lemma_holds_at_concat(d, o, p1, p2 + (p3 + (p4 + (p5 + p6))));
    codec::lemma_holds_at_concat(d, o + 2, p2, p3 + (p4 + (p5 + p6)));
    codec::lemma_holds_at_concat(d, o + 4, p3, p4 + (p5 + p6));
    codec::lemma_holds_at_concat(d, o + 4 + r, p4, p5 + p6);
    codec::lemma_holds_at_concat(d, o + 12 + r, p5, p6);
    codec::lemma_get16(d, o, n as u16);
    codec::lemma_get16(d, o + 2, r as u16);
    codec::lemma_get64(d, o + 4 + r, e.key.ts);
    codec::lemma_get16(d, o + 12 + r, e.value.len() as u16);
}

/// The data of the first entries is the beginning of the data of all.
pub proof fn lemma_block_data_prefix(es: Seq<Entry>, i: int)
    requires
        0 <= i <= es.len(),
    ensures
        block_data(es.take(i)).len() <= block_data(es).len(),
        block_data(es).take(block_data(es.take(i)).len() as int) == block_data(es.take(i)),
        i < es.len() ==> codec::holds_at(
            block_data(es),
            block_data(es.take(i)).len() as int,
            entry_bytes(first_bytes(es.take(i)), es[i]),
        ),
    decreases es.len(),
{
    if i == es.len() {
        assert(es.take(i) =~= es);
        assert(block_data(es).take(block_data(es).len() as int) =~= block_data(es));
    } else {
        let init = es.drop_last();
        lemma_block_data_prefix(init, i);
        assert(init.take(i) =~= es.take(i));
        let tail = entry_bytes(first_bytes(init), es.last());
        assert(block_data(es) == block_data(init) + tail);
        let n = block_data(es.take(i)).len() as int;
        assert(block_data(es).take(n) =~= block_data(init).take(n));
        if i < init.len() {
            let p = entry_bytes(first_bytes(es.take(i)), es[i]);
            assert(init[i] == es[i]);
            assert(block_data(es).subrange(n, n + p.len()) =~= block_data(init).subrange(
                n,
                n + p.len(),
            ));
        } else {
            assert(es.take(i) =~= init);
            assert(block_data(es).subrange(n, n + tail.len()) =~= tail);
        }
    }
}

/// Every offset of the entries fits into two bytes.
pub open spec fn offsets_fit(es: Seq<Entry>) -> bool {
    forall|i: int| 0 <= i < es.len() ==> (#[trigger] block_data(es.take(i))).len() <= 0xffff
}

/// The data section and the offsets of valid entries describe those entries.
pub proof fn lemma_block_data_entries(es: Seq<Entry>)
    requires
        valid_entries(es),
        offsets_fit(es),
    ensures
        raw_block_ok(block_data(es), block_offsets(es)),
        raw_entries(block_data(es), block_offsets(es)) == es,
        raw_first(block_data(es), block_offsets(es)) == first_bytes(es),
{
    let d = block_data(es);
    let offs = block_offsets(es);
    if es.len() > 0 {
        lemma_block_data_prefix(es, 0);
        assert(es.take(0) =~= Seq::empty());
        assert(valid_entry(es[0]));
        assert(block_data(es.take(0)).len() == 0);
        assert(offs[0] == 0);
        lemma_entry_round_trip(d, 0, Seq::empty(), es[0]);
    }
    assert forall|i: int| 0 <= i < offs.len() implies entry_fits(
        d,
        #[trigger] offs[i] as int,
        first_bytes(es).len() as int,
    ) && entry_at(d, offs[i] as int, first_bytes(es)) == es[i] by {
        lemma_block_data_prefix(es, i);
        assert(valid_entry(es[i]));
        assert(valid_entry(es[0]));
        assert(block_data(es.take(i)).len() <= 0xffff);
        if i == 0 {
            assert(es.take(0) =~= Seq::empty());
            assert(first_bytes(es).take(0) =~= Seq::<u8>::empty().take(0));
        } else {
            assert(first_bytes(es.take(i)) == first_bytes(es));
            lemma_entry_round_trip(d, offs[i] as int, first_bytes(es), es[i]);
        }
    }
    assert(raw_entries(d, offs) =~= es);
}

proof fn lemma_offsets_bytes(offsets: Seq<u16>)
    ensures
        offsets_bytes(offsets).len() == 2 * offsets.len(),
    decreases offsets.len(),
{
    if offsets.len() > 0 {
        lemma_offsets_bytes(offsets.drop_last());
    }
}

proof fn lemma_offset_at(offsets: Seq<u16>, i: int)
    requires
        0 <= i < offsets.len(),
    ensures
        codec::holds_at(offsets_bytes(offsets), 2 * i, codec::be16(offsets[i])),
    decreases offsets.len(),
{
    let init = offsets.drop_last();
    let bi = offsets_bytes(init);
    lemma_offsets_bytes(init);
    if i < init.len() {
        lemma_offset_at(init, i);
        codec::lemma_holds_at_extend(bi, codec::be16(offsets.last()), 2 * i, codec::be16(offsets[i]));
    } else {
        codec::lemma_holds_at_tail(bi, codec::be16(offsets.last()));
    }
}

/// The data section and the offsets of a block are read back from its bytes.
pub proof fn lemma_raw_block_round_trip(data: Seq<u8>, offsets: Seq<u16>)
    requires
        offsets.len() <= 0xffff,
    ensures
        ({
            let raw = raw_block_bytes(data, offsets);
            &&& raw.len() == data.len() + 2 * offsets.len() + 2
            &&& raw_data_len(raw) == data.len()
            &&& raw_data(raw) == data
            &&& raw_offsets(raw) == offsets
        }),
{
    let raw = raw_block_bytes(data, offsets);
    lemma_offsets_bytes(offsets);
    let n = offsets.len() as int;
    assert(raw.subrange(raw.len() - 2, raw.len() as int) =~= codec::be16(n as u16));
    codec::lemma_get16(raw, raw.len() - 2, n as u16);
    assert(raw_data(raw) =~= data);
    assert forall|i: int| 0 <= i < n implies #[trigger] raw_offsets(raw)[i] == offsets[i] by {
        lemma_offset_at(offsets, i);
        assert(raw.subrange(data.len() + 2 * i, data.len() + 2 * i + 2) =~= offsets_bytes(
            offsets,
        ).subrange(2 * i, 2 * i + 2));
        codec::lemma_get16(raw, data.len() + 2 * i, offsets[i]);
    }
    assert(raw_offsets(raw) =~= offsets);
}

/// The entries of a block are read back from its bytes.
pub proof fn lemma_block_round_trip(es: Seq<Entry>)
    requires
        valid_entries(es),
        offsets_fit(es),
        es.len() <= 0xffff,
    ensures
        decodable(block_bytes(es)),
        decoded(block_bytes(es)) == es,
{
    lemma_raw_block_round_trip(block_data(es), block_offsets(es));
    lemma_block_data_entries(es);
}

/// The common prefix of two byte strings is the longest one: where both go on behind it, they go on
/// with different bytes.
pub proof fn lemma_common_prefix_longest(a: Seq<u8>, b: Seq<u8>, n: int)
    requires
        0 <= n <= a.len(),
        n <= b.len(),
        a.take(n) == b.take(n),
    ensures
        n <= common_prefix(a, b),
        common_prefix(a, b) < a.len() && common_prefix(a, b) < b.len() ==> a[common_prefix(
            a,
            b,
        ) as int] != b[common_prefix(a, b) as int],
    decreases a.len(),
{
    if n > 0 {
        assert(a.take(n)[0] == a[0] && b.take(n)[0] == b[0]);
    }
    if a.len() > 0 && b.len() > 0 && a[0] == b[0] {
        let c = a.drop_first();
        let d = b.drop_first();
        let m: int = if n > 0 {
            n - 1
        } else {
            0
        };
        assert forall|i: int| 0 <= i < m implies c[i] == d[i] by {
            assert(a.take(n)[i + 1] == a[i + 1]);
            assert(b.take(n)[i + 1] == b[i + 1]);
        }
        assert(c.take(m) =~= d.take(m));
        lemma_common_prefix_longest(c, d, m);
    }
}

/// How an entry is laid out: the number of bytes that its key shares with the first key of the block,
/// the number of the other bytes of the key, these bytes, the time, the length of the value and the
/// value.
pub proof fn lemma_entry_layout(first: Seq<u8>, e: Entry)
    requires
        valid_entry(e),
        first.len() <= 0xffff,
    ensures
        ({
            let d = entry_bytes(first, e);
            let n = common_prefix(first, e.key.key) as int;
            let m = e.key.key.len() - n;
            &&& d.len() == 14 + m + e.value.len()
            &&& codec::get16(d, 0) == n
            &&& codec::get16(d, 2) == m
            &&& d.subrange(4, 4 + m) == e.key.key.skip(n)
            &&& codec::get64(d, 4 + m) == e.key.ts
            &&& codec::get16(d, 12 + m) == e.value.len()
            &&& d.skip(14 + m) == e.value
        }),
{
    let d = entry_bytes(first, e);
    let n = common_prefix(first, e.key.key) as int;
    let m = e.key.key.len() - n;
    lemma_common_prefix(first, e.key.key);
    lemma_entry_len(first, e);
    let a = codec::be16(n as u16);
    let b = codec::be16(m as u16);
    let k = e.key.key.skip(n);
    let t = codec::be64(e.key.ts);
    let l = codec::be16(e.value.len() as u16);
    assert(d =~= a + (b + (k + (t + (l + e.value)))));
    assert(d.subrange(0, 2) =~= a);
    assert(d.subrange(2, 4) =~= b);
    assert(d.subrange(4, 4 + m) =~= k);
    assert(d.subrange(4 + m, 12 + m) =~= t);
    assert(d.subrange(12 + m, 14 + m) =~= l);
    assert(d.skip(14 + m) =~= e.value);
    codec::lemma_get16(d, 0, n as u16);
    codec::lemma_get16(d, 2, m as u16);
    codec::lemma_get64(d, 4 + m, e.key.ts);
    codec::lemma_get16(d, 12 + m, e.value.len() as u16);
}

/// How a block is laid out: its entries one after the other, each but the first against the first
/// key, then the place of each entry, then their number.
pub proof fn lemma_block_layout(es: Seq<Entry>, i: int)
    requires
        es.len() <= 0xffff,
        offsets_fit(es),
        0 <= i < es.len(),
    ensures
        ({
            let raw = block_bytes(es);
            let n = block_data(es).len() as int;
            let first = if i == 0 {
                Seq::empty()
            } else {
                es[0].key.key
            };
            let at = codec::get16(raw, n + 2 * i) as int;
            &&& raw.len() == n + 2 * es.len() + 2
            &&& codec::get16(raw, raw.len() - 2) == es.len()
            &&& i == 0 ==> at == 0
            &&& codec::holds_at(raw, at, entry_bytes(first, es[i]))
            &&& i + 1 < es.len() ==> codec::get16(raw, n + 2 * (i + 1)) == at + entry_bytes(
                first,
                es[i],
            ).len()
            &&& i + 1 == es.len() ==> n == at + entry_bytes(first, es[i]).len()
        }),
{
    let raw = block_bytes(es);
    let data = block_data(es);
    let offsets = block_offsets(es);
    let n = data.len() as int;
    lemma_raw_block_round_trip(data, offsets);
    assert(raw_offsets(raw).len() == es.len());
    assert(raw_offsets(raw)[i] == codec::get16(raw, n + 2 * i));
    assert(offsets[i] == block_data(es.take(i)).len());
    lemma_block_data_prefix(es, i);
    let first = first_bytes(es.take(i));
    assert(raw.take(n) =~= data);
    codec::lemma_holds_at_head(data, offsets_bytes(offsets) + codec::be16(offsets.len() as u16));
    assert(raw =~= data + (offsets_bytes(offsets) + codec::be16(offsets.len() as u16)));
    codec::lemma_holds_at_extend(
        data,
        offsets_bytes(offsets) + codec::be16(offsets.len() as u16),
        block_data(es.take(i)).len() as int,
        entry_bytes(first, es[i]),
    );
    assert(es.take(i + 1).drop_last() =~= es.take(i));
    if i + 1 < es.len() {
        assert(raw_offsets(raw)[i + 1] == codec::get16(raw, n + 2 * (i + 1)));
        assert(offsets[i + 1] == block_data(es.take(i + 1)).len());
    } else {
        assert(es.take(i + 1) =~= es);
    }
    if i == 0 {
        assert(es.take(0) =~= Seq::empty());
    }
}

/// What is read from the bytes of a block: the number of entries stands at the end, the places of the
/// entries before it, and at each place an entry whose key goes on from the first key of the block.
pub proof fn lemma_decoded_layout(raw: Seq<u8>, i: int)
    requires
        decodable(raw),
        0 <= i < codec::get16(raw, raw.len() - 2),
    ensures
        ({
            let n = codec::get16(raw, raw.len() - 2) as int;
            let end = raw.len() - 2 - 2 * n;
            let d = raw.take(end);
            let start = codec::get16(raw, end) as int;
            let first = d.subrange(start + 4, start + 4 + codec::get16(d, start + 2));
            let at = codec::get16(raw, end + 2 * i) as int;
            let shared = codec::get16(d, at) as int;
            let rest = codec::get16(d, at + 2) as int;
            let e = decoded(raw)[i];
            &&& decoded(raw).len() == n
            &&& shared <= first.len()
            &&& e.key.key == first.take(shared) + d.subrange(at + 4, at + 4 + rest)
            &&& e.key.key.len() > 0
            &&& e.key.ts == codec::get64(d, at + 4 + rest)
            &&& e.value == d.subrange(
                at + 14 + rest,
                at + 14 + rest + codec::get16(d, at + 12 + rest),
            )
        }),
{
    let end = raw_data_len(raw);
    let d = raw_data(raw);
    let offsets = raw_offsets(raw);
    let start = offsets[0] as int;
    let at = offsets[i] as int;
    assert(entry_fits(d, at, raw_first(d, offsets).len() as int));
    let first = d.subrange(start + 4, start + 4 + codec::get16(d, start + 2));
    assert(raw_first(d, offsets) =~= first);
}

/// The bytes of a block are refused exactly if the number of entries does not fit, or an entry does
/// not: it ends behind the data, shares more with the first key than there is, or has a key of no or
/// of too many bytes. The first entry shares nothing.
pub proof fn lemma_undecodable(raw: Seq<u8>)
    ensures
        decodable(raw) <==> raw.len() >= 2 && raw.len() - 2 >= 2 * codec::get16(raw, raw.len() - 2)
            && {
            let n = codec::get16(raw, raw.len() - 2) as int;
            let end = raw.len() - 2 - 2 * n;
            let d = raw.take(end);
            let start = codec::get16(raw, end) as int;
            forall|i: int|
                0 <= i < n ==> {
                    let at = #[trigger] codec::get16(raw, end + 2 * i) as int;
                    let shared = codec::get16(d, at) as int;
                    let rest = codec::get16(d, at + 2) as int;
                    &&& at + 4 <= end
                    &&& i == 0 ==> shared == 0
                    &&& shared <= codec::get16(d, start + 2)
                    &&& 0 < shared + rest <= 0xffff
                    &&& at + 14 + rest <= end
                    &&& at + 14 + rest + codec::get16(d, at + 12 + rest) <= end
                }
        },
{
    if raw.len() >= 2 && raw_data_len(raw) >= 0 {
        let n = codec::get16(raw, raw.len() - 2) as int;
        let end = raw_data_len(raw);
        let d = raw_data(raw);
        let offsets = raw_offsets(raw);
        let start = codec::get16(raw, end) as int;
        assert forall|i: int| 0 <= i < n implies #[trigger] offsets[i] == codec::get16(
            raw,
            end + 2 * i,
        ) by {}
        if n > 0 {
            assert(offsets[0] == start);
            assert(codec::get16(raw, end + 2 * 0) == start);
        }
        if decodable(raw) {
            if n > 0 {
                assert(raw_first(d, offsets).len() == codec::get16(d, start + 2));
            }
            assert forall|i: int| 0 <= i < n implies {
                let at = #[trigger] codec::get16(raw, end + 2 * i) as int;
                let shared = codec::get16(d, at) as int;
                let rest = codec::get16(d, at + 2) as int;
                &&& at + 4 <= end
                &&& i == 0 ==> shared == 0
                &&& shared <= codec::get16(d, start + 2)
                &&& 0 < shared + rest <= 0xffff
                &&& at + 14 + rest <= end
                &&& at + 14 + rest + codec::get16(d, at + 12 + rest) <= end
            } by {
                assert(entry_fits(d, offsets[i] as int, raw_first(d, offsets).len() as int));
            }
        } else {
            if n > 0 && entry_fits(d, start, 0) {
                assert(raw_first(d, offsets).len() == codec::get16(d, start + 2));
                let i = choose|i: int|
                    0 <= i < n && !entry_fits(
                        d,
                        #[trigger] offsets[i] as int,
                        raw_first(d, offsets).len() as int,
                    );
                assert(codec::get16(raw, end + 2 * i) == offsets[i]);
            }
        }
    }
}

/// The entries that are read from the bytes of a block have keys and values of representable
/// lengths.
pub proof fn lemma_decoded_valid(raw: Seq<u8>)
    requires
        decodable(raw),
    ensures
        valid_entries(decoded(raw)),
{
    let d = raw_data(raw);
    let offsets = raw_offsets(raw);
    assert forall|i: int| 0 <= i < decoded(raw).len() implies #[trigger] valid_entry(
        decoded(raw)[i],
    ) by {
        assert(entry_fits(d, offsets[i] as int, raw_first(d, offsets).len() as int));
    }
}

proof fn lemma_raw_offsets(raw: Seq<u8>, i: int)
    requires
        raw.len() >= 2,
        raw_data_len(raw) >= 0,
        0 <= i <= raw_offsets(raw).len(),
    ensures
        offsets_bytes(raw_offsets(raw).take(i)) == raw.subrange(
            raw_data_len(raw),
            raw_data_len(raw) + 2 * i,
        ),
    decreases i,
{
    let at = raw_data_len(raw);
    let some = raw_offsets(raw).take(i);
    if i == 0 {
        assert(raw.subrange(at, at) =~= Seq::empty());
        assert(offsets_bytes(some) =~= Seq::empty());
    } else {
        lemma_raw_offsets(raw, i - 1);
        assert(some.drop_last() =~= raw_offsets(raw).take(i - 1));
        codec::lemma_put16(raw, at + 2 * (i - 1));
        assert(raw.subrange(at, at + 2 * i) =~= raw.subrange(at, at + 2 * (i - 1)) + raw.subrange(
            at + 2 * (i - 1),
            at + 2 * i,
        ));
    }
}

/// The bytes that a block was read from are the bytes of its parts.
pub proof fn lemma_raw_parts(raw: Seq<u8>)
    requires
        raw.len() >= 2,
        raw_data_len(raw) >= 0,
    ensures
        raw_block_bytes(raw_data(raw), raw_offsets(raw)) == raw,
{
    let n = raw_offsets(raw).len() as int;
    lemma_raw_offsets(raw, n);
    assert(raw_offsets(raw).take(n) =~= raw_offsets(raw));
    codec::lemma_put16(raw, raw.len() - 2);
    assert(raw =~= raw_data(raw) + raw.subrange(raw_data_len(raw), raw.len() - 2) + raw.subrange(
        raw.len() - 2,
        raw.len() as int,
    ));
}

/// A block: the bytes of the entries and the offset of each.
pub struct Block {
    pub(crate) data: Vec<u8>,
    pub(crate) offsets: Vec<u16>,
}

impl View for Block {
    type V = Seq<Entry>;

    closed spec fn view(&self) -> Seq<Entry> {
        raw_entries(self.data@, self.offsets@)
    }
}

impl Block {
    /// The offsets lead to entries.
    pub closed spec fn wf(&self) -> bool {
        raw_block_ok(self.data@, self.offsets@)
    }

    /// The bytes of the block.
    pub closed spec fn bytes(&self) -> Seq<u8> {
        raw_block_bytes(self.data@, self.offsets@)
    }

    /// The bytes of the block: data, offsets, and the number of entries.
    pub fn encode(&self) -> (r: Vec<u8>)
        ensures
            r@ == self.bytes(),
    {
        let mut buf: Vec<u8> = Vec::new();
        put_slice(&mut buf, self.data.as_slice());
        let mut i: usize = 0;
        while i < self.offsets.len()
            invariant
                i <= self.offsets.len(),
                buf@ == self.data@ + offsets_bytes(self.offsets@.take(i as int)),
            decreases self.offsets.len() - i,
        {
            put_u16(&mut buf, self.offsets[i]);
            proof {
                let t = self.offsets@.take(i + 1);
                assert(t.drop_last() =~= self.offsets@.take(i as int));
                assert(buf@ =~= self.data@ + offsets_bytes(t));
            }
            i += 1;
        }
        proof {
            assert(self.offsets@.take(i as int) =~= self.offsets@);
        }
        put_u16(&mut buf, self.offsets.len() as u16);
        buf
    }

    /// Reads a block from its bytes, which are then the bytes of the block. Bytes that are not a
    /// block are refused.
    pub fn decode(raw: &[u8]) -> (r: Result<Block, StorageError>)
        ensures
            match r {
                Ok(b) => decodable(raw@) && b.wf() && b@ == decoded(raw@) && b.bytes() == raw@,
                Err(e) => !decodable(raw@) && e == StorageError::CorruptBlock,
            },
    {
        let len: usize = raw.len();
        if len < 2 {
            return Err(StorageError::CorruptBlock);
        }
        let num: usize = read_u16(raw, len - 2) as usize;
        if len - 2 < 2 * num {
            return Err(StorageError::CorruptBlock);
        }
        let data_len: usize = len - 2 - 2 * num;
        let data: Vec<u8> = crate::key::copy_bytes(vstd::slice::slice_subrange(raw, 0, data_len));
        assert(data@ =~= raw_data(raw@));
        let mut offsets: Vec<u16> = Vec::new();
        let mut i: usize = 0;
        while i < num
            invariant
                i <= num,
                len == raw@.len(),
                data_len + 2 * num + 2 == len,
                data_len == raw_data_len(raw@),
                offsets@.len() == i,
                num == raw_offsets(raw@).len(),
                forall|j: int| 0 <= j < i ==> offsets@[j] == raw_offsets(raw@)[j],
            decreases num - i,
        {
            offsets.push(read_u16(raw, data_len + 2 * i));
            i += 1;
        }
        assert(offsets@ =~= raw_offsets(raw@));
        let block = Block { data, offsets };
        proof {
            lemma_raw_parts(raw@);
        }
        if block.check() {
            Ok(block)
        } else {
            Err(StorageError::CorruptBlock)
        }
    }

    /// Whether an entry can be read at offset `o`.
    fn check_entry(&self, o: usize, first_len: usize) -> (r: bool)
        requires
            o <= 0xffff,
        ensures
            r == entry_fits(self.data@, o as int, first_len as int),
    {
        let len: usize = self.data.len();
        let data: &[u8] = self.data.as_slice();
        if len < 4 || o > len - 4 {
            return false;
        }
        let overlap: usize = read_u16(data, o) as usize;
        let rest: usize = read_u16(data, o + 2) as usize;
        if overlap > first_len || overlap + rest == 0 || overlap + rest > 0xffff {
            return false;
        }
        if len - o < 14 || rest > len - o - 14 {
            return false;
        }
        let value: usize = read_u16(data, o + 12 + rest) as usize;
        value <= len - o - 14 - rest
    }

    /// Whether every offset leads to an entry.
    fn check(&self) -> (r: bool)
        ensures
            r == self.wf(),
    {
        if self.offsets.len() == 0 {
            return true;
        }
        if !self.check_entry(self.offsets[0] as usize, 0) {
            return false;
        }
        let first_len: usize = read_u16(self.data.as_slice(), self.offsets[0] as usize + 2) as usize;
        assert(first_len == raw_first(self.data@, self.offsets@).len());
        let mut i: usize = 0;
        while i < self.offsets.len()
            invariant
                i <= self.offsets.len(),
                self.offsets@.len() > 0,
                first_len == raw_first(self.data@, self.offsets@).len(),
                entry_fits(self.data@, self.offsets@[0] as int, 0),
                forall|j: int|
                    0 <= j < i ==> entry_fits(
                        self.data@,
                        #[trigger] self.offsets@[j] as int,
                        first_len as int,
                    ),
            decreases self.offsets.len() - i,
        {
            if !self.check_entry(self.offsets[i] as usize, first_len) {
                assert(!entry_fits(self.data@, self.offsets@[i as int] as int, first_len as int));
                return false;
            }
            i += 1;
        }
        true
    }
}

} // verus!
