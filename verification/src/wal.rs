//! The write-ahead log.
//!
//! The log is a sequence of batches: the length of the body in four bytes, the body, and the
//! checksum of the body in four bytes. The body holds entries one behind the other: the length of
//! the key in two bytes, the key, the timestamp in eight bytes, the length of the value in two
//! bytes, and the value.

use crossbeam_skiplist::SkipMap;
use vstd::prelude::*;

use crate::codec;
use crate::codec::{put_slice, put_u16, put_u32, put_u64, read_u16, read_u32, read_u64};
use crate::error::StorageError;
use crate::hash;
use crate::key;
use crate::key::{Entry, Key, KeySlice, TS_DEFAULT};
use crate::skiplist;

verus! {

/// The bytes of an entry in the log.
#[verifier::opaque]
pub open spec fn record_bytes(e: Entry) -> Seq<u8> {
    codec::be16(e.key.key.len() as u16) + (e.key.key + (codec::be64(e.key.ts) + (codec::be16(
        e.value.len() as u16,
    ) + e.value)))
}

/// The bytes of entries, one behind the other.
pub open spec fn body_bytes(es: Seq<Entry>) -> Seq<u8>
    decreases es.len(),
{
    if es.len() == 0 {
        Seq::empty()
    } else {
        record_bytes(es[0]) + body_bytes(es.drop_first())
    }
}

/// The bytes of a batch of entries.
pub open spec fn batch_bytes(es: Seq<Entry>) -> Seq<u8> {
    codec::framed(body_bytes(es).len() as u32, body_bytes(es), hash::crc32_of(body_bytes(es)))
}

/// The bytes of a log.
pub open spec fn log_bytes(batches: Seq<Seq<Entry>>) -> Seq<u8>
    decreases batches.len(),
{
    if batches.len() == 0 {
        Seq::empty()
    } else {
        batch_bytes(batches[0]) + log_bytes(batches.drop_first())
    }
}

/// The entry at `pos` and the position behind it.
#[verifier::opaque]
pub open spec fn record_at(s: Seq<u8>, pos: int) -> Option<(Entry, int)> {
    if pos + 2 > s.len() {
        None
    } else {
        let n = codec::get16(s, pos) as int;
        if pos + 2 + n + 10 > s.len() {
            None
        } else {
            let v = codec::get16(s, pos + 10 + n) as int;
            if pos + 12 + n + v > s.len() {
                None
            } else {
                Some(
                    (
                        Entry {
                            key: Key {
                                key: s.subrange(pos + 2, pos + 2 + n),
                                ts: codec::get64(s, pos + 2 + n),
                            },
                            value: s.subrange(pos + 12 + n, pos + 12 + n + v),
                        },
                        pos + 12 + n + v,
                    ),
                )
            }
        }
    }
}

proof fn lemma_record_at_moves(s: Seq<u8>, pos: int)
    ensures
        record_at(s, pos) matches Some((e, p)) ==> pos + 12 <= p <= s.len(),
{
    reveal(record_at);
}

/// The entries of a body from `pos` on, or nothing where the body ends in the middle of one.
pub open spec fn records_from(s: Seq<u8>, pos: int) -> Option<Seq<Entry>>
    decreases s.len() - pos,
{
    if pos >= s.len() {
        Some(Seq::empty())
    } else {
        match record_at(s, pos) {
            None => None,
            Some((e, p)) => if p <= pos || p > s.len() {
                None
            } else {
                match records_from(s, p) {
                    None => None,
                    Some(es) => Some(seq![e] + es),
                }
            },
        }
    }
}

/// The contents of a skip list after entries were inserted.
pub open spec fn inserted(m: Map<(Seq<u8>, u64), Seq<u8>>, es: Seq<Entry>) -> Map<
    (Seq<u8>, u64),
    Seq<u8>,
>
    decreases es.len(),
{
    if es.len() == 0 {
        m
    } else {
        inserted(
            m.insert((es[0].key.key, skiplist::rank_of(es[0].key.ts)), es[0].value),
            es.drop_first(),
        )
    }
}

/// The contents of a skip list after batches were inserted.
pub open spec fn inserted_batches(
    m: Map<(Seq<u8>, u64), Seq<u8>>,
    batches: Seq<Seq<Entry>>,
) -> Map<(Seq<u8>, u64), Seq<u8>>
    decreases batches.len(),
{
    if batches.len() == 0 {
        m
    } else {
        inserted_batches(inserted(m, batches[0]), batches.drop_first())
    }
}

/// What replaying a log comes to: the contents of the skip list, and the error at the first batch
/// that cannot be replayed. No entry of that batch or of a later one is inserted.
#[verifier::ext_equal]
pub struct Replay {
    pub contents: Map<(Seq<u8>, u64), Seq<u8>>,
    pub fault: Option<StorageError>,
}

/// Replaying a log into a skip list.
pub open spec fn replayed(log: Seq<u8>, m: Map<(Seq<u8>, u64), Seq<u8>>) -> Replay
    decreases log.len(),
{
    if log.len() == 0 {
        Replay { contents: m, fault: None }
    } else if log.len() < 4 || log.len() < 8 + codec::get32(log, 0) {
        Replay { contents: m, fault: Some(StorageError::CorruptWal) }
    } else {
        let n = codec::get32(log, 0) as int;
        let body = log.subrange(4, 4 + n);
        match records_from(body, 0) {
            None => Replay { contents: m, fault: Some(StorageError::CorruptWal) },
            Some(es) => if hash::crc32_of(body) != codec::get32(log, 4 + n) {
                Replay { contents: m, fault: Some(StorageError::WalChecksumMismatch) }
            } else {
                replayed(log.skip(8 + n), inserted(m, es))
            },
        }
    }
}

/// The fields of the entries and the body fit into the bytes that their lengths are stored in.
pub open spec fn batch_fits(es: Seq<Entry>) -> bool {
    &&& forall|i: int|
        0 <= i < es.len() ==> (#[trigger] es[i]).key.key.len() <= 0xffff && es[i].value.len()
            <= 0xffff
    &&& body_bytes(es).len() <= 0xffff_ffff
}

proof fn lemma_record_round_trip(s: Seq<u8>, pos: int, e: Entry)
    requires
        e.key.key.len() <= 0xffff,
        e.value.len() <= 0xffff,
        codec::holds_at(s, pos, record_bytes(e)),
    ensures
        record_at(s, pos) == Some((e, pos + record_bytes(e).len())),
        record_bytes(e).len() >= 12,
{
    reveal(record_bytes);
    reveal(record_at);
    let n = e.key.key.len() as int;
    let v = e.value.len() as int;
    let tail = codec::be16(v as u16) + e.value;
    codec::lemma_holds_at_concat(
        s,
        pos,
        codec::be16(n as u16),
        e.key.key + (codec::be64(e.key.ts) + tail),
    );
    codec::lemma_get16(s, pos, n as u16);
    codec::lemma_holds_at_concat(s, pos + 2, e.key.key, codec::be64(e.key.ts) + tail);
    codec::lemma_holds_at_concat(s, pos + 2 + n, codec::be64(e.key.ts), tail);
    codec::lemma_get64(s, pos + 2 + n, e.key.ts);
    codec::lemma_holds_at_concat(s, pos + 10 + n, codec::be16(v as u16), e.value);
    codec::lemma_get16(s, pos + 10 + n, v as u16);
    assert(record_at(s, pos)->Some_0.0 =~= e);
}

proof fn lemma_body_round_trip(s: Seq<u8>, pos: int, es: Seq<Entry>)
    requires
        forall|i: int|
            0 <= i < es.len() ==> (#[trigger] es[i]).key.key.len() <= 0xffff && es[i].value.len()
                <= 0xffff,
        codec::holds_at(s, pos, body_bytes(es)),
        s.len() == pos + body_bytes(es).len(),
    ensures
        records_from(s, pos) == Some(es),
    decreases es.len(),
{
    if es.len() > 0 {
        let rest = es.drop_first();
        codec::lemma_holds_at_concat(s, pos, record_bytes(es[0]), body_bytes(rest));
        assert(es[0].key.key.len() <= 0xffff && es[0].value.len() <= 0xffff);
        lemma_record_round_trip(s, pos, es[0]);
        assert forall|i: int| 0 <= i < rest.len() implies (#[trigger] rest[i]).key.key.len()
            <= 0xffff && rest[i].value.len() <= 0xffff by {
            assert(rest[i] == es[i + 1]);
        }
        lemma_body_round_trip(s, pos + record_bytes(es[0]).len(), rest);
        assert(seq![es[0]] + rest =~= es);
    } else {
        assert(es =~= Seq::empty());
    }
}

/// Replaying a log that begins with a batch inserts the batch and goes on behind it.
pub proof fn lemma_replay_batch(
    es: Seq<Entry>,
    tail: Seq<u8>,
    m: Map<(Seq<u8>, u64), Seq<u8>>,
)
    requires
        batch_fits(es),
    ensures
        replayed(batch_bytes(es) + tail, m) == replayed(tail, inserted(m, es)),
{
    let body = body_bytes(es);
    let frame = batch_bytes(es);
    let log = frame + tail;
    let n = body.len() as int;
    codec::lemma_framed(n as u32, body, hash::crc32_of(body));
    lemma_get32_in_front(frame, tail, 0);
    lemma_get32_in_front(frame, tail, 4 + n);
    assert(log.subrange(4, 4 + n) =~= frame.subrange(4, 4 + n));
    assert(log.skip(8 + n) =~= tail);
    assert(body.subrange(0, n) =~= body);
    lemma_body_round_trip(body, 0, es);
}

proof fn lemma_get32_in_front(a: Seq<u8>, b: Seq<u8>, pos: int)
    requires
        0 <= pos,
        pos + 4 <= a.len(),
    ensures
        codec::get32(a + b, pos) == codec::get32(a, pos),
{
    let s = a + b;
    assert(s[pos] == a[pos] && s[pos + 1] == a[pos + 1] && s[pos + 2] == a[pos + 2] && s[pos + 3]
        == a[pos + 3]);
}

/// Replaying a log inserts the batches that were written, in the order in which they were written.
/// What stands behind the written batches, such as a batch that was cut off, does not change that.
pub proof fn lemma_replay_log(
    batches: Seq<Seq<Entry>>,
    tail: Seq<u8>,
    m: Map<(Seq<u8>, u64), Seq<u8>>,
)
    requires
        forall|i: int| 0 <= i < batches.len() ==> #[trigger] batch_fits(batches[i]),
    ensures
        replayed(log_bytes(batches) + tail, m) == replayed(tail, inserted_batches(m, batches)),
        replayed(log_bytes(batches), m) == (Replay {
            contents: inserted_batches(m, batches),
            fault: None,
        }),
    decreases batches.len(),
{
    let log = log_bytes(batches);
    if batches.len() == 0 {
        assert(log + tail =~= tail);
    } else {
        let rest = batches.drop_first();
        assert(batch_fits(batches[0]));
        assert forall|i: int| 0 <= i < rest.len() implies #[trigger] batch_fits(rest[i]) by {
            assert(batch_fits(batches[i + 1]));
        }
        assert(log + tail =~= batch_bytes(batches[0]) + (log_bytes(rest) + tail));
        lemma_replay_batch(batches[0], log_bytes(rest) + tail, m);
        lemma_replay_batch(batches[0], log_bytes(rest), m);
        lemma_replay_log(rest, tail, inserted(m, batches[0]));
    }
}

/// A batch that was cut off is not replayed, in no part.
pub proof fn lemma_replay_torn(es: Seq<Entry>, cut: int, m: Map<(Seq<u8>, u64), Seq<u8>>)
    requires
        batch_fits(es),
        0 < cut < batch_bytes(es).len(),
    ensures
        replayed(batch_bytes(es).take(cut), m) == (Replay {
            contents: m,
            fault: Some(StorageError::CorruptWal),
        }),
{
    let body = body_bytes(es);
    let frame = batch_bytes(es);
    codec::lemma_framed(body.len() as u32, body, hash::crc32_of(body));
    if cut >= 4 {
        assert(frame =~= frame.take(cut) + frame.skip(cut));
        lemma_get32_in_front(frame.take(cut), frame.skip(cut), 0);
    }
}

/// How a record is laid out: the number of bytes of the key in two bytes, the key, the time, the
/// number of bytes of the value in two bytes, the value.
pub proof fn lemma_record_layout(e: Entry)
    requires
        e.key.key.len() <= 0xffff,
        e.value.len() <= 0xffff,
    ensures
        ({
            let b = record_bytes(e);
            let n = e.key.key.len() as int;
            &&& b.len() == n + e.value.len() + 12
            &&& codec::get16(b, 0) == n
            &&& b.subrange(2, 2 + n) == e.key.key
            &&& codec::get64(b, 2 + n) == e.key.ts
            &&& codec::get16(b, 10 + n) == e.value.len()
            &&& b.skip(12 + n) == e.value
        }),
{
    reveal(record_bytes);
    let b = record_bytes(e);
    let n = e.key.key.len() as int;
    let t = codec::be64(e.key.ts);
    let l = codec::be16(e.value.len() as u16);
    assert(b.subrange(0, 2) =~= codec::be16(n as u16));
    assert(b.subrange(2, 2 + n) =~= e.key.key);
    assert(b.subrange(2 + n, 10 + n) =~= t);
    assert(b.subrange(10 + n, 12 + n) =~= l);
    assert(b.skip(12 + n) =~= e.value);
    codec::lemma_get16(b, 0, n as u16);
    codec::lemma_get64(b, 2 + n, e.key.ts);
    codec::lemma_get16(b, 10 + n, e.value.len() as u16);
}

/// The records of a batch, and the batches of a log, stand one after the other.
pub proof fn lemma_log_concat(a: Seq<Entry>, b: Seq<Entry>, c: Seq<Seq<Entry>>, d: Seq<Seq<Entry>>)
    ensures
        body_bytes(a + b) == body_bytes(a) + body_bytes(b),
        a.len() == 1 ==> body_bytes(a) == record_bytes(a[0]),
        log_bytes(c + d) == log_bytes(c) + log_bytes(d),
        c.len() == 1 ==> log_bytes(c) == batch_bytes(c[0]),
    decreases a.len() + c.len(),
{
    reveal_with_fuel(body_bytes, 2);
    reveal_with_fuel(log_bytes, 2);
    if a.len() > 0 {
        lemma_log_concat(a.drop_first(), b, c, d);
        assert((a + b).drop_first() =~= a.drop_first() + b);
        assert(record_bytes(a[0]) + (body_bytes(a.drop_first()) + body_bytes(b)) =~= (record_bytes(
            a[0],
        ) + body_bytes(a.drop_first())) + body_bytes(b));
    } else {
        assert(a + b =~= b);
        assert(body_bytes(a) + body_bytes(b) =~= body_bytes(b));
    }
    if c.len() > 0 {
        if a.len() == 0 {
            lemma_log_concat(a, b, c.drop_first(), d);
        } else {
            lemma_log_concat(a.drop_first(), b, c, d);
        }
        assert((c + d).drop_first() =~= c.drop_first() + d);
        assert(batch_bytes(c[0]) + (log_bytes(c.drop_first()) + log_bytes(d)) =~= (batch_bytes(c[0])
            + log_bytes(c.drop_first())) + log_bytes(d));
    } else {
        assert(c + d =~= d);
        assert(log_bytes(c) + log_bytes(d) =~= log_bytes(d));
    }
    if a.len() == 1 {
        assert(a.drop_first() =~= Seq::empty());
        assert(body_bytes(a) =~= record_bytes(a[0]));
    }
    if c.len() == 1 {
        assert(c.drop_first() =~= Seq::empty());
        assert(log_bytes(c) =~= batch_bytes(c[0]));
    }
}

/// How a batch is laid out: the number of bytes of its records in four bytes, the records, their
/// checksum in four bytes.
pub proof fn lemma_batch_layout(es: Seq<Entry>)
    requires
        body_bytes(es).len() <= 0xffff_ffff,
    ensures
        ({
            let b = batch_bytes(es);
            let n = body_bytes(es).len() as int;
            &&& b.len() == n + 8
            &&& codec::get32(b, 0) == n
            &&& b.subrange(4, 4 + n) == body_bytes(es)
            &&& codec::get32(b, 4 + n) == hash::crc32_of(body_bytes(es))
        }),
{
    codec::lemma_framed(
        body_bytes(es).len() as u32,
        body_bytes(es),
        hash::crc32_of(body_bytes(es)),
    );
}

/// After a batch, a version of a key has the value that the batch gave it last; a version that the
/// batch does not name is as it was before.
pub proof fn lemma_inserted_exactly(m: Map<(Seq<u8>, u64), Seq<u8>>, es: Seq<Entry>, k: Key)
    ensures
        ({
            let place = (k.key, (u64::MAX - k.ts) as u64);
            let after = inserted(m, es);
            &&& forall|i: int|
                0 <= i < es.len() && (#[trigger] es[i]).key == k && (forall|j: int|
                    i < j < es.len() ==> (#[trigger] es[j]).key != k) ==> after.dom().contains(place)
                    && after[place] == es[i].value
            &&& (forall|j: int| 0 <= j < es.len() ==> (#[trigger] es[j]).key != k) ==> {
                &&& after.dom().contains(place) <==> m.dom().contains(place)
                &&& after[place] == m[place]
            }
        }),
    decreases es.len(),
{
    let place = (k.key, (u64::MAX - k.ts) as u64);
    if es.len() > 0 {
        let rest = es.drop_first();
        let first = (es[0].key.key, (u64::MAX - es[0].key.ts) as u64);
        let next = m.insert(first, es[0].value);
        lemma_inserted_exactly(next, rest, k);
        assert(first == place <==> es[0].key == k) by {
            if first == place {
                assert(es[0].key.ts == k.ts);
            }
        }
        let after = inserted(m, es);
        assert forall|i: int|
            0 <= i < es.len() && (#[trigger] es[i]).key == k && (forall|j: int|
                i < j < es.len() ==> (#[trigger] es[j]).key != k) implies after.dom().contains(place)
            && after[place] == es[i].value by {
            if i == 0 {
                assert forall|j: int| 0 <= j < rest.len() implies (#[trigger] rest[j]).key != k by {
                    assert(es[j + 1].key != k);
                }
            } else {
                assert(rest[i - 1] == es[i]);
                assert forall|j: int| i - 1 < j < rest.len() implies (#[trigger] rest[j]).key
                    != k by {
                    assert(es[j + 1].key != k);
                }
            }
        }
        if forall|j: int| 0 <= j < es.len() ==> (#[trigger] es[j]).key != k {
            assert(es[0].key != k);
            assert forall|j: int| 0 <= j < rest.len() implies (#[trigger] rest[j]).key != k by {
                assert(es[j + 1].key != k);
            }
        }
    }
}

/// Several batches leave what all their entries one after the other leave.
pub proof fn lemma_inserted_batches(
    m: Map<(Seq<u8>, u64), Seq<u8>>,
    batches: Seq<Seq<Entry>>,
)
    ensures
        inserted_batches(m, batches) == inserted(m, batches.flatten()),
    decreases batches.len(),
{
    if batches.len() > 0 {
        lemma_inserted_batches(inserted(m, batches[0]), batches.drop_first());
        lemma_inserted_concat(m, batches[0], batches.drop_first().flatten());
    }
}

proof fn lemma_inserted_concat(m: Map<(Seq<u8>, u64), Seq<u8>>, a: Seq<Entry>, b: Seq<Entry>)
    ensures
        inserted(m, a + b) == inserted(inserted(m, a), b),
    decreases a.len(),
{
    if a.len() == 0 {
        assert(a + b =~= b);
    } else {
        assert((a + b).drop_first() =~= a.drop_first() + b);
        lemma_inserted_concat(
            m.insert((a[0].key.key, skiplist::rank_of(a[0].key.ts)), a[0].value),
            a.drop_first(),
            b,
        );
    }
}

/// Nothing of a batch is taken over that is cut off, whose records cannot be read or whose checksum
/// is wrong, and nothing behind it. Only where the records can be read is the checksum looked at. An
/// empty log is no fault.
pub proof fn lemma_replay_checked(log: Seq<u8>, m: Map<(Seq<u8>, u64), Seq<u8>>)
    ensures
        log.len() == 0 ==> replayed(log, m) == (Replay { contents: m, fault: None }),
        0 < log.len() < 4 ==> replayed(log, m) == (Replay {
            contents: m,
            fault: Some(StorageError::CorruptWal),
        }),
        log.len() >= 4 && log.len() < codec::get32(log, 0) + 8 ==> replayed(log, m) == (Replay {
            contents: m,
            fault: Some(StorageError::CorruptWal),
        }),
        log.len() >= 4 && log.len() >= codec::get32(log, 0) + 8 ==> {
            let n = codec::get32(log, 0) as int;
            let body = log.subrange(4, 4 + n);
            let sum = codec::get32(log, 4 + n);
            &&& records_from(body, 0) is None ==> replayed(log, m) == (Replay {
                contents: m,
                fault: Some(StorageError::CorruptWal),
            })
            &&& records_from(body, 0) is Some && hash::crc32_of(body) != sum ==> replayed(log, m)
                == (Replay { contents: m, fault: Some(StorageError::WalChecksumMismatch) })
            &&& records_from(body, 0) is Some && hash::crc32_of(body) == sum ==> replayed(log, m)
                == replayed(log.skip(8 + n), inserted(m, records_from(body, 0)->0))
        },
{
}

/// Records are read from bytes one after the other: each names the lengths of its key and its value,
/// and it is refused where it does not end within the bytes.
pub proof fn lemma_records_read(s: Seq<u8>, pos: int)
    requires
        0 <= pos < s.len(),
    ensures
        ({
            let n = codec::get16(s, pos) as int;
            let v = codec::get16(s, pos + 10 + n) as int;
            let whole = pos + 2 <= s.len() && pos + 12 + n <= s.len() && pos + 12 + n + v
                <= s.len();
            &&& !whole ==> records_from(s, pos) is None
            &&& whole ==> match (records_from(s, pos), records_from(s, pos + 12 + n + v)) {
                (Some(es), Some(rest)) => {
                    &&& es.len() == rest.len() + 1
                    &&& es.skip(1) == rest
                    &&& es[0].key.key == s.subrange(pos + 2, pos + 2 + n)
                    &&& es[0].key.ts == codec::get64(s, pos + 2 + n)
                    &&& es[0].value == s.subrange(pos + 12 + n, pos + 12 + n + v)
                },
                (None, None) => true,
                _ => false,
            }
        }),
        records_from(s, s.len() as int) == Some(Seq::<Entry>::empty()),
{
    reveal(record_at);
    let n = codec::get16(s, pos) as int;
    let v = codec::get16(s, pos + 10 + n) as int;
    if let Some(rest) = records_from(s, pos + 12 + n + v) {
        if let Some(es) = records_from(s, pos) {
            assert(es.skip(1) =~= rest);
        }
    }
}

/// The entry that a key and a value make.
pub open spec fn entry_of(item: (KeySlice<'_>, &[u8])) -> Entry {
    Entry { key: item.0@, value: item.1@ }
}

/// The entries of a batch.
pub open spec fn entries_of(data: Seq<(KeySlice<'_>, &[u8])>) -> Seq<Entry> {
    Seq::new(data.len(), |i: int| entry_of(data[i]))
}

proof fn lemma_body_push(es: Seq<Entry>, e: Entry)
    ensures
        body_bytes(es.push(e)) == body_bytes(es) + record_bytes(e),
    decreases es.len(),
{
    let all = es.push(e);
    if es.len() == 0 {
        assert(all.drop_first() =~= es);
        assert(body_bytes(all) =~= body_bytes(es) + record_bytes(e));
    } else {
        assert(all.drop_first() =~= es.drop_first().push(e));
        lemma_body_push(es.drop_first(), e);
        assert(body_bytes(all) =~= body_bytes(es) + record_bytes(e));
    }
}

fn put_record(buf: &mut Vec<u8>, key: KeySlice<'_>, value: &[u8])
    ensures
        final(buf)@ == old(buf)@ + record_bytes(Entry { key: key@, value: value@ }),
{
    reveal(record_bytes);
    put_u16(buf, key.key.len() as u16);
    put_slice(buf, key.key);
    put_u64(buf, key.ts);
    put_u16(buf, value.len() as u16);
    put_slice(buf, value);
    assert(buf@ =~= old(buf)@ + record_bytes(Entry { key: key@, value: value@ }));
}

/// A write-ahead log. It collects the bytes that are to be written to the end of the log file.
pub struct Wal {
    pending: Vec<u8>,
}

impl Wal {
    /// The bytes that are not written yet.
    pub closed spec fn unwritten(&self) -> Seq<u8> {
        self.pending@
    }

    /// A log without anything to write.
    pub fn create() -> (r: Self)
        ensures
            r.unwritten() == Seq::<u8>::empty(),
    {
        Wal { pending: Vec::new() }
    }

    /// Replays the bytes of a log file into a skip list. Where a batch cannot be replayed, the
    /// batches before it are in the skip list.
    pub fn recover(
        log: &[u8],
        skiplist: &mut SkipMap<(Vec<u8>, u64), Vec<u8>>,
    ) -> (r: Result<Self, StorageError>)
        ensures
            skiplist::contents(*final(skiplist)) == replayed(
                log@,
                skiplist::contents(*old(skiplist)),
            ).contents,
            match r {
                Ok(w) => replayed(log@, skiplist::contents(*old(skiplist))).fault is None
                    && w.unwritten() == Seq::<u8>::empty(),
                Err(e) => replayed(log@, skiplist::contents(*old(skiplist))).fault == Some(e),
            },
    {
        let ghost whole = replayed(log@, skiplist::contents(*skiplist));
        let len: usize = log.len();
        let mut pos: usize = 0;
        assert(log@.skip(0) =~= log@);
        while pos < len
            invariant
                len == log@.len(),
                pos <= len,
                whole == replayed(log@, skiplist::contents(*old(skiplist))),
                whole == replayed(log@.skip(pos as int), skiplist::contents(*skiplist)),
            decreases len - pos,
        {
            let ghost rest = log@.skip(pos as int);
            if len - pos < 4 {
                return Err(StorageError::CorruptWal);
            }
            let n: usize = read_u32(log, pos) as usize;
            assert(n == codec::get32(rest, 0));
            if len - pos - 4 < n || len - pos - 4 - n < 4 {
                return Err(StorageError::CorruptWal);
            }
            let body: &[u8] = vstd::slice::slice_subrange(log, pos + 4, pos + 4 + n);
            assert(body@ =~= rest.subrange(4, 4 + n as int));
            let batch: Vec<((Vec<u8>, u64), Vec<u8>)> = match read_records(body) {
                None => {
                    return Err(StorageError::CorruptWal);
                },
                Some(batch) => batch,
            };
            let sum: u32 = read_u32(log, pos + 4 + n);
            assert(sum == codec::get32(rest, 4 + n as int));
            if hash::crc32(body) != sum {
                return Err(StorageError::WalChecksumMismatch);
            }
            insert_records(skiplist, batch);
            pos = pos + 8 + n;
            assert(rest.skip(8 + n as int) =~= log@.skip(pos as int));
        }
        assert(log@.skip(pos as int).len() == 0);
        Ok(Wal { pending: Vec::new() })
    }

    /// Logs one entry without a timestamp.
    pub fn put(&mut self, key: &[u8], value: &[u8])
        ensures
            final(self).unwritten() == old(self).unwritten() + batch_bytes(
                seq![Entry { key: Key { key: key@, ts: TS_DEFAULT }, value: value@ }],
            ),
    {
        let item: (KeySlice<'_>, &[u8]) = (KeySlice::from_slice(key, TS_DEFAULT), value);
        let mut data: Vec<(KeySlice<'_>, &[u8])> = Vec::new();
        data.push(item);
        assert(entries_of(data@) =~= seq![
            Entry { key: Key { key: key@, ts: TS_DEFAULT }, value: value@ },
        ]);
        self.put_batch(data.as_slice());
    }

    /// Logs a batch of entries.
    pub fn put_batch(&mut self, data: &[(KeySlice<'_>, &[u8])])
        ensures
            final(self).unwritten() == old(self).unwritten() + batch_bytes(entries_of(data@)),
    {
        let ghost all = entries_of(data@);
        let mut body: Vec<u8> = Vec::new();
        let mut i: usize = 0;
        assert(all.take(0) =~= Seq::empty());
        while i < data.len()
            invariant
                i <= data@.len(),
                all == entries_of(data@),
                body@ == body_bytes(all.take(i as int)),
            decreases data@.len() - i,
        {
            let item: &(KeySlice<'_>, &[u8]) = &data[i];
            put_record(&mut body, item.0, item.1);
            proof {
                lemma_body_push(all.take(i as int), all[i as int]);
                assert(all.take(i as int).push(all[i as int]) =~= all.take(i + 1));
            }
            i += 1;
        }
        assert(all.take(i as int) =~= all);
        let sum: u32 = hash::crc32(body.as_slice());
        put_u32(&mut self.pending, body.len() as u32);
        put_slice(&mut self.pending, body.as_slice());
        put_u32(&mut self.pending, sum);
        reveal(codec::framed);
        assert(self.pending@ =~= old(self).pending@ + batch_bytes(all));
    }

    /// Hands out the bytes that are to be written.
    pub fn take_unwritten(&mut self) -> (r: Vec<u8>)
        ensures
            r@ == old(self).unwritten(),
            final(self).unwritten() == Seq::<u8>::empty(),
    {
        let mut out: Vec<u8> = Vec::new();
        std::mem::swap(&mut out, &mut self.pending);
        out
    }
}

/// The item under which an entry is held.
spec fn item_of(e: Entry, item: ((Vec<u8>, u64), Vec<u8>)) -> bool {
    &&& item.0.0@ == e.key.key
    &&& item.0.1 == skiplist::rank_of(e.key.ts)
    &&& item.1@ == e.value
}

/// The items of entries.
spec fn items_of(es: Seq<Entry>, items: Seq<((Vec<u8>, u64), Vec<u8>)>) -> bool {
    &&& es.len() == items.len()
    &&& forall|i: int| 0 <= i < es.len() ==> item_of(es[i], #[trigger] items[i])
}

/// Reads the entries of a body.
fn read_records(body: &[u8]) -> (r: Option<Vec<((Vec<u8>, u64), Vec<u8>)>>)
    ensures
        match r {
            None => records_from(body@, 0) is None,
            Some(items) => records_from(body@, 0) matches Some(es) && items_of(es, items@),
        },
{
    let ghost whole = records_from(body@, 0);
    let ghost mut done: Seq<Entry> = Seq::empty();
    let len: usize = body.len();
    let mut items: Vec<((Vec<u8>, u64), Vec<u8>)> = Vec::new();
    let mut pos: usize = 0;
    proof {
        if whole is Some {
            assert(done + whole->0 =~= whole->0);
        }
    }
    while pos < len
        invariant
            len == body@.len(),
            pos <= len,
            items_of(done, items@),
            whole == records_from(body@, 0),
            whole == match records_from(body@, pos as int) {
                None => None,
                Some(es) => Some(done + es),
            },
        decreases len - pos,
    {
        proof {
            lemma_record_at_moves(body@, pos as int);
        }
        reveal(record_at);
        if len - pos < 2 {
            return None;
        }
        let n: usize = read_u16(body, pos) as usize;
        if len - pos - 2 < n || len - pos - 2 - n < 10 {
            return None;
        }
        let v: usize = read_u16(body, pos + 10 + n) as usize;
        if len - pos - 12 - n < v {
            return None;
        }
        let ts: u64 = read_u64(body, pos + 2 + n);
        let k: Vec<u8> = key::copy_bytes(vstd::slice::slice_subrange(body, pos + 2, pos + 2 + n));
        let value: Vec<u8> = key::copy_bytes(
            vstd::slice::slice_subrange(body, pos + 12 + n, pos + 12 + n + v),
        );
        proof {
            let e = record_at(body@, pos as int)->Some_0.0;
            let before = done;
            done = done.push(e);
            if whole is Some {
                let es = records_from(body@, pos + 12 + n + v)->0;
                assert(before + (seq![e] + es) =~= done + es);
            }
        }
        items.push(((k, skiplist::rank(ts)), value));
        pos = pos + 12 + n + v;
    }
    assert(done + Seq::<Entry>::empty() =~= done);
    Some(items)
}

/// Inserts items into a skip list.
fn insert_records(
    skiplist: &mut SkipMap<(Vec<u8>, u64), Vec<u8>>,
    items: Vec<((Vec<u8>, u64), Vec<u8>)>,
)
    ensures
        forall|es: Seq<Entry>| #[trigger]
            items_of(es, items@) ==> skiplist::contents(*final(skiplist)) == inserted(
                skiplist::contents(*old(skiplist)),
                es,
            ),
{
    let ghost start = skiplist::contents(*skiplist);
    let mut i: usize = 0;
    let n: usize = items.len();
    proof {
        assert forall|es: Seq<Entry>| #[trigger] items_of(es, items@) implies inserted(start, es)
            == inserted(skiplist::contents(*skiplist), es.skip(0)) by {
            assert(es.skip(0) =~= es);
        }
    }
    while i < n
        invariant
            i <= n,
            n == items@.len(),
            forall|es: Seq<Entry>| #[trigger]
                items_of(es, items@) ==> inserted(start, es) == inserted(
                    skiplist::contents(*skiplist),
                    es.skip(i as int),
                ),
        decreases n - i,
    {
        let ghost before = skiplist::contents(*skiplist);
        let k: (Vec<u8>, u64) = (key::copy_bytes(items[i].0.0.as_slice()), items[i].0.1);
        let value: Vec<u8> = key::copy_bytes(items[i].1.as_slice());
        skiplist::skip_insert(skiplist, k, value);
        proof {
            assert forall|es: Seq<Entry>| #[trigger] items_of(es, items@) implies inserted(
                start,
                es,
            ) == inserted(skiplist::contents(*skiplist), es.skip(i + 1)) by {
                assert(es.skip(i as int).drop_first() =~= es.skip(i + 1));
                assert(item_of(es[i as int], items@[i as int]));
                assert(es.skip(i as int)[0] == es[i as int]);
                assert(inserted(start, es) == inserted(before, es.skip(i as int)));
            }
        }
        i += 1;
    }
    proof {
        assert forall|es: Seq<Entry>| #[trigger]
            items_of(es, items@) implies skiplist::contents(*skiplist) == inserted(start, es) by {
            assert(es.skip(n as int).len() == 0);
        }
    }
}

} // verus!
