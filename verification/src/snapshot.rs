//! What sorted entries hold at a point in time.

use vstd::prelude::*;

use crate::key;
use crate::key::Entry;

verus! {

/// The newest version of a key that is not newer than `ts`: in sorted entries, the first one.
pub open spec fn newest(es: Seq<Entry>, k: Seq<u8>, ts: u64) -> Option<Entry>
    decreases es.len(),
{
    if es.len() == 0 {
        None
    } else if es[0].key.key == k && es[0].key.ts <= ts {
        Some(es[0])
    } else {
        newest(es.drop_first(), k, ts)
    }
}

/// The value of a key at time `ts`. A version with an empty value says that the key was deleted.
pub open spec fn visible(es: Seq<Entry>, k: Seq<u8>, ts: u64) -> Option<Seq<u8>> {
    match newest(es, k, ts) {
        Some(e) => if e.value.len() == 0 {
            None
        } else {
            Some(e.value)
        },
        None => None,
    }
}

/// The newest version is one of the entries.
pub proof fn lemma_newest_member(es: Seq<Entry>, k: Seq<u8>, ts: u64)
    ensures
        newest(es, k, ts) matches Some(e) ==> es.contains(e) && e.key.key == k && e.key.ts <= ts,
        newest(es, k, ts) is None ==> forall|i: int|
            0 <= i < es.len() ==> !((#[trigger] es[i]).key.key == k && es[i].key.ts <= ts),
    decreases es.len(),
{
    if es.len() > 0 {
        let rest = es.drop_first();
        if es[0].key.key == k && es[0].key.ts <= ts {
            assert(es.contains(es[0]));
        } else {
            lemma_newest_member(rest, k, ts);
            if newest(rest, k, ts) is Some {
                let e = newest(rest, k, ts)->0;
                let j = choose|j: int| 0 <= j < rest.len() && rest[j] == e;
                assert(es[j + 1] == e);
            } else {
                assert forall|i: int| 0 <= i < es.len() implies !((#[trigger] es[i]).key.key == k
                    && es[i].key.ts <= ts) by {
                    if i > 0 {
                        assert(rest[i - 1] == es[i]);
                    }
                }
            }
        }
    }
}

/// In sorted entries no other version up to `ts` is newer than the newest one.
pub proof fn lemma_newest_is_newest(es: Seq<Entry>, k: Seq<u8>, ts: u64, i: int)
    requires
        key::sorted(es),
        0 <= i < es.len(),
        es[i].key.key == k,
        es[i].key.ts <= ts,
    ensures
        newest(es, k, ts) matches Some(e) && e.key.ts >= es[i].key.ts,
    decreases es.len(),
{
    let rest = es.drop_first();
    if i == 0 {
    } else if es[0].key.key == k && es[0].key.ts <= ts {
        assert(key::key_lt(es[0].key, es[i].key));
        key::lemma_bytes_lt_irreflexive(k);
    } else {
        assert(key::sorted(rest)) by {
            assert forall|a: int, b: int| 0 <= a < b < rest.len() implies key::key_lt(
                #[trigger] rest[a].key,
                #[trigger] rest[b].key,
            ) by {
                assert(rest[a] == es[a + 1] && rest[b] == es[b + 1]);
            }
        }
        assert(rest[i - 1] == es[i]);
        lemma_newest_is_newest(rest, k, ts, i - 1);
    }
}

/// A key has a value at a time exactly if one of its versions up to that time is not a mark of a
/// deletion and no other version up to that time is newer.
pub proof fn lemma_visible_exactly(es: Seq<Entry>, k: Seq<u8>, ts: u64, v: Seq<u8>)
    requires
        key::sorted(es),
    ensures
        visible(es, k, ts) == Some(v) <==> v.len() > 0 && exists|i: int|
            0 <= i < es.len() && (#[trigger] es[i]).key.key == k && es[i].key.ts <= ts
                && es[i].value == v && forall|j: int|
                0 <= j < es.len() && (#[trigger] es[j]).key.key == k && es[j].key.ts <= ts
                    ==> es[j].key.ts <= es[i].key.ts,
{
    lemma_newest_member(es, k, ts);
    if visible(es, k, ts) == Some(v) {
        let e = newest(es, k, ts)->0;
        let i = choose|i: int| 0 <= i < es.len() && es[i] == e;
        assert forall|j: int|
            0 <= j < es.len() && (#[trigger] es[j]).key.key == k && es[j].key.ts <= ts implies es[j].key.ts
            <= es[i].key.ts by {
            lemma_newest_is_newest(es, k, ts, j);
        }
    }
    if v.len() > 0 && exists|i: int|
        0 <= i < es.len() && (#[trigger] es[i]).key.key == k && es[i].key.ts <= ts && es[i].value
            == v && forall|j: int|
            0 <= j < es.len() && (#[trigger] es[j]).key.key == k && es[j].key.ts <= ts
                ==> es[j].key.ts <= es[i].key.ts {
        let i = choose|i: int|
            0 <= i < es.len() && (#[trigger] es[i]).key.key == k && es[i].key.ts <= ts
                && es[i].value == v && forall|j: int|
                0 <= j < es.len() && (#[trigger] es[j]).key.key == k && es[j].key.ts <= ts
                    ==> es[j].key.ts <= es[i].key.ts;
        lemma_newest_is_newest(es, k, ts, i);
        let e = newest(es, k, ts)->0;
        let j = choose|j: int| 0 <= j < es.len() && es[j] == e;
        assert(es[j].key.ts <= es[i].key.ts);
        if i < j {
            assert(key::key_lt(es[i].key, es[j].key));
            key::lemma_key_lt_asymmetric(es[i].key, es[j].key);
        } else if j < i {
            assert(key::key_lt(es[j].key, es[i].key));
            key::lemma_key_lt_asymmetric(es[j].key, es[i].key);
        }
    }
}

/// The newest version in a concatenation.
pub proof fn lemma_newest_concat(a: Seq<Entry>, b: Seq<Entry>, k: Seq<u8>, ts: u64)
    ensures
        newest(a + b, k, ts) == if newest(a, k, ts) is Some {
            newest(a, k, ts)
        } else {
            newest(b, k, ts)
        },
    decreases a.len(),
{
    if a.len() == 0 {
        assert(a + b =~= b);
    } else {
        assert((a + b).drop_first() =~= a.drop_first() + b);
        lemma_newest_concat(a.drop_first(), b, k, ts);
    }
}

} // verus!
