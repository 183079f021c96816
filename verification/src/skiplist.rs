//! The skip list that buffers writes.
//!
//! Its keys are pairs of a byte string and a rank. Versions of one byte string with higher
//! timestamps have lower ranks, so that the newest version comes first.

use crossbeam_skiplist::SkipMap;
use vstd::prelude::*;

use crate::key;

verus! {

#[verifier::external_type_specification]
#[verifier::external_body]
#[verifier::reject_recursive_types(K)]
#[verifier::reject_recursive_types(V)]
pub struct ExSkipMap<K, V>(SkipMap<K, V>);

/// The rank of a version.
pub open spec fn rank_of(ts: u64) -> u64 {
    (u64::MAX - ts) as u64
}

/// The newer of two versions has the lower rank, and no two versions share one.
pub proof fn lemma_rank(a: u64, b: u64)
    ensures
        rank_of(a) < rank_of(b) <==> a > b,
        rank_of(a) == rank_of(b) <==> a == b,
        rank_of(a) + a == u64::MAX,
{
}

/// The rank of a version.
pub fn rank(ts: u64) -> (r: u64)
    ensures
        r == rank_of(ts),
{
    u64::MAX - ts
}

/// What the skip list holds.
pub uninterp spec fn contents(m: SkipMap<(Vec<u8>, u64), Vec<u8>>) -> Map<
    (Seq<u8>, u64),
    Seq<u8>,
>;

/// The contents of an empty skip list.
pub open spec fn no_items() -> Map<(Seq<u8>, u64), Seq<u8>> {
    Map::empty()
}

/// The order of the keys: by the byte string, then by the rank.
pub open spec fn item_lt(a: (Seq<u8>, u64), b: (Seq<u8>, u64)) -> bool {
    key::bytes_lt(a.0, b.0) || (a.0 == b.0 && a.1 < b.1)
}

/// Where a range of keys of the skip list begins or ends.
#[derive(Debug)]
pub enum ItemBound {
    Included((Vec<u8>, u64)),
    Excluded((Vec<u8>, u64)),
    Unbounded,
}

/// The key is not before the start of a range.
pub open spec fn from_bound(lower: ItemBound, k: (Seq<u8>, u64)) -> bool {
    match lower {
        ItemBound::Included(b) => !item_lt(k, (b.0@, b.1)),
        ItemBound::Excluded(b) => item_lt((b.0@, b.1), k),
        ItemBound::Unbounded => true,
    }
}

/// The key is not behind the end of a range.
pub open spec fn to_bound(upper: ItemBound, k: (Seq<u8>, u64)) -> bool {
    match upper {
        ItemBound::Included(b) => !item_lt((b.0@, b.1), k),
        ItemBound::Excluded(b) => item_lt(k, (b.0@, b.1)),
        ItemBound::Unbounded => true,
    }
}

/// The key of an item.
pub open spec fn item_key(item: ((Vec<u8>, u64), Vec<u8>)) -> (Seq<u8>, u64) {
    (item.0.0@, item.0.1)
}

/// The items are those of the map in the range, in key order.
pub open spec fn lists(
    items: Seq<((Vec<u8>, u64), Vec<u8>)>,
    m: Map<(Seq<u8>, u64), Seq<u8>>,
    lower: ItemBound,
    upper: ItemBound,
) -> bool {
    &&& forall|i: int, j: int|
        0 <= i < j < items.len() ==> item_lt(
            item_key(#[trigger] items[i]),
            item_key(#[trigger] items[j]),
        )
    &&& forall|i: int|
        0 <= i < items.len() ==> {
            let k = item_key(#[trigger] items[i]);
            &&& m.dom().contains(k)
            &&& m[k] == items[i].1@
            &&& from_bound(lower, k)
            &&& to_bound(upper, k)
        }
    &&& forall|k: (Seq<u8>, u64)| #[trigger]
        m.dom().contains(k) && from_bound(lower, k) && to_bound(upper, k) ==> exists|i: int|
            0 <= i < items.len() && item_key(#[trigger] items[i]) == k
}

/// Calls `SkipMap::new`. Claimed of it: the new skip list holds nothing.
#[verifier::external_body]
pub(crate) fn new_skip_map() -> (r: SkipMap<(Vec<u8>, u64), Vec<u8>>)
    ensures
        contents(r) == no_items(),
{
    SkipMap::new()
}

/// Calls `SkipMap::insert`. Claimed of it: the skip list then holds the value under the key,
/// whatever it held there before, and everything else is unchanged.
#[verifier::external_body]
pub(crate) fn skip_insert(
    m: &mut SkipMap<(Vec<u8>, u64), Vec<u8>>,
    k: (Vec<u8>, u64),
    value: Vec<u8>,
)
    ensures
        contents(*final(m)) == contents(*old(m)).insert((k.0@, k.1), value@),
{
    m.insert(k, value);
}

/// Calls `SkipMap::get`. Claimed of it: it finds the value under the key exactly where the skip
/// list holds one.
#[verifier::external_body]
pub(crate) fn skip_get(
    m: &SkipMap<(Vec<u8>, u64), Vec<u8>>,
    k: &(Vec<u8>, u64),
) -> (r: Option<Vec<u8>>)
    ensures
        match r {
            Some(v) => contents(*m).dom().contains((k.0@, k.1)) && contents(*m)[(k.0@, k.1)] == v@,
            None => !contents(*m).dom().contains((k.0@, k.1)),
        },
{
    m.get(k).map(|e| e.value().clone())
}

/// Calls `SkipMap::iter`. Claimed of it: it hands out every item of the skip list once, in key
/// order.
#[verifier::external_body]
pub(crate) fn skip_items(
    m: &SkipMap<(Vec<u8>, u64), Vec<u8>>,
) -> (r: Vec<((Vec<u8>, u64), Vec<u8>)>)
    ensures
        lists(r@, contents(*m), ItemBound::Unbounded, ItemBound::Unbounded),
{
    m.iter().map(|e| (e.key().clone(), e.value().clone())).collect()
}

/// Calls `SkipMap::range`. Claimed of it: it hands out every item of the skip list in the range
/// once, in key order, and none where the range ends before it begins.
#[verifier::external_body]
pub(crate) fn skip_range(
    m: &SkipMap<(Vec<u8>, u64), Vec<u8>>,
    lower: ItemBound,
    upper: ItemBound,
) -> (r: Vec<((Vec<u8>, u64), Vec<u8>)>)
    ensures
        lists(r@, contents(*m), lower, upper),
{
    let lo = match lower {
        ItemBound::Included(b) => std::ops::Bound::Included(b),
        ItemBound::Excluded(b) => std::ops::Bound::Excluded(b),
        ItemBound::Unbounded => std::ops::Bound::Unbounded,
    };
    let hi = match upper {
        ItemBound::Included(b) => std::ops::Bound::Included(b),
        ItemBound::Excluded(b) => std::ops::Bound::Excluded(b),
        ItemBound::Unbounded => std::ops::Bound::Unbounded,
    };
    m.range((lo, hi)).map(|e| (e.key().clone(), e.value().clone())).collect()
}

} // verus!
