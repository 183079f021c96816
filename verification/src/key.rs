//! Keys: a byte string and the timestamp of one version of it.
//!
//! Byte strings are ordered lexicographically. Versions of one byte string are ordered from the
//! newest to the oldest, so that the newest version comes first.

use vstd::prelude::*;

verus! {

/// The timestamp of a key that carries no version.
pub const TS_DEFAULT: u64 = 0;

/// The timestamp under which a search for a byte string finds its newest version first.
pub const TS_RANGE_BEGIN: u64 = 0xffff_ffff_ffff_ffff;

/// The timestamp of the last possible version of a byte string.
pub const TS_RANGE_END: u64 = 0;

/// How two values compare.
#[derive(Clone, Copy, Debug, PartialEq, Eq, Structural)]
pub enum Order {
    Less,
    Equal,
    Greater,
}

/// The mathematical value of a key.
#[verifier::ext_equal]
pub struct Key {
    pub key: Seq<u8>,
    pub ts: u64,
}

/// One version of a key together with its value. An empty value marks a deletion.
#[verifier::ext_equal]
pub struct Entry {
    pub key: Key,
    pub value: Seq<u8>,
}

/// The lexicographic order of byte strings.
pub open spec fn bytes_lt(a: Seq<u8>, b: Seq<u8>) -> bool
    decreases a.len(),
{
    if b.len() == 0 {
        false
    } else if a.len() == 0 {
        true
    } else if a[0] != b[0] {
        a[0] < b[0]
    } else {
        bytes_lt(a.drop_first(), b.drop_first())
    }
}

pub open spec fn bytes_le(a: Seq<u8>, b: Seq<u8>) -> bool {
    a == b || bytes_lt(a, b)
}

/// Byte strings ascending, and versions of one byte string descending.
pub open spec fn key_lt(a: Key, b: Key) -> bool {
    bytes_lt(a.key, b.key) || (a.key == b.key && a.ts > b.ts)
}

pub open spec fn key_le(a: Key, b: Key) -> bool {
    a == b || key_lt(a, b)
}

/// Entries in strictly ascending key order.
pub open spec fn sorted(s: Seq<Entry>) -> bool {
    forall|i: int, j: int| 0 <= i < j < s.len() ==> key_lt(#[trigger] s[i].key, #[trigger] s[j].key)
}

/// No byte string precedes itself.
pub proof fn lemma_bytes_lt_irreflexive(a: Seq<u8>)
    ensures
        !bytes_lt(a, a),
    decreases a.len(),
{
    if a.len() > 0 {
        lemma_bytes_lt_irreflexive(a.drop_first());
    }
}

/// The order of byte strings is transitive.
pub proof fn lemma_bytes_lt_transitive(a: Seq<u8>, b: Seq<u8>, c: Seq<u8>)
    requires
        bytes_lt(a, b),
        bytes_lt(b, c),
    ensures
        bytes_lt(a, c),
    decreases a.len(),
{
    if a.len() > 0 && a[0] == b[0] && b[0] == c[0] {
        lemma_bytes_lt_transitive(a.drop_first(), b.drop_first(), c.drop_first());
    }
}

/// Any two byte strings are equal or one precedes the other.
pub proof fn lemma_bytes_lt_total(a: Seq<u8>, b: Seq<u8>)
    ensures
        a == b || bytes_lt(a, b) || bytes_lt(b, a),
    decreases a.len(),
{
    if a.len() > 0 && b.len() > 0 && a[0] == b[0] {
        lemma_bytes_lt_total(a.drop_first(), b.drop_first());
        if a.drop_first() == b.drop_first() {
            assert(a =~= seq![a[0]] + a.drop_first());
            assert(b =~= seq![b[0]] + b.drop_first());
        }
    } else if a.len() == 0 && b.len() == 0 {
        assert(a =~= b);
    }
}

/// No two byte strings precede each other.
pub proof fn lemma_bytes_lt_asymmetric(a: Seq<u8>, b: Seq<u8>)
    requires
        bytes_lt(a, b),
    ensures
        !bytes_lt(b, a),
        a != b,
{
    lemma_bytes_lt_irreflexive(a);
    if bytes_lt(b, a) {
        lemma_bytes_lt_transitive(a, b, a);
    }
}

/// The order of keys is transitive.
pub proof fn lemma_key_lt_transitive(a: Key, b: Key, c: Key)
    requires
        key_lt(a, b),
        key_lt(b, c),
    ensures
        key_lt(a, c),
{
    if bytes_lt(a.key, b.key) && bytes_lt(b.key, c.key) {
        lemma_bytes_lt_transitive(a.key, b.key, c.key);
    }
}

/// No key precedes itself, and no two keys precede each other.
pub proof fn lemma_key_lt_asymmetric(a: Key, b: Key)
    requires
        key_lt(a, b),
    ensures
        !key_lt(b, a),
        a != b,
{
    lemma_bytes_lt_irreflexive(a.key);
    if bytes_lt(a.key, b.key) {
        lemma_bytes_lt_asymmetric(a.key, b.key);
    }
}

/// Any two keys are equal or one precedes the other.
pub proof fn lemma_key_lt_total(a: Key, b: Key)
    ensures
        a == b || key_lt(a, b) || key_lt(b, a),
{
    lemma_bytes_lt_total(a.key, b.key);
    assert(a.key == b.key && a.ts == b.ts ==> a =~= b);
}

/// Bytes that are not behind others are not behind what those are not behind.
pub proof fn lemma_bytes_le_chain(a: Seq<u8>, b: Seq<u8>, c: Seq<u8>)
    requires
        bytes_le(a, b),
        bytes_le(b, c),
    ensures
        bytes_le(a, c),
        a != b || b != c ==> bytes_lt(a, c),
{
    if a != b && b != c {
        lemma_bytes_lt_transitive(a, b, c);
    }
}

/// No key of the entries is before `k`.
pub open spec fn none_before(es: Seq<Entry>, k: Seq<u8>) -> bool {
    forall|i: int| 0 <= i < es.len() ==> bytes_le(k, (#[trigger] es[i]).key.key)
}

/// Behind the first of sorted entries are sorted entries whose keys are not before its key, and
/// whose versions of its key are older.
pub proof fn lemma_rest_sorted(es: Seq<Entry>)
    requires
        sorted(es),
        es.len() > 0,
    ensures
        sorted(es.skip(1)),
        none_before(es.skip(1), es[0].key.key),
        forall|i: int|
            0 <= i < es.skip(1).len() && (#[trigger] es.skip(1)[i]).key.key == es[0].key.key
                ==> es.skip(1)[i].key.ts < es[0].key.ts,
{
    let rest = es.skip(1);
    assert forall|a: int, b: int| 0 <= a < b < rest.len() implies key_lt(
        #[trigger] rest[a].key,
        #[trigger] rest[b].key,
    ) by {
        assert(rest[a] == es[a + 1] && rest[b] == es[b + 1]);
    }
    assert forall|i: int| 0 <= i < rest.len() implies bytes_le(
        es[0].key.key,
        (#[trigger] rest[i]).key.key,
    ) && (rest[i].key.key == es[0].key.key ==> rest[i].key.ts < es[0].key.ts) by {
        assert(rest[i] == es[i + 1]);
        assert(key_lt(es[0].key, es[i + 1].key));
        lemma_bytes_lt_irreflexive(es[0].key.key);
    }
}

/// How two byte strings compare, as the lexicographic order says.
pub open spec fn bytes_order(a: Seq<u8>, b: Seq<u8>) -> Order {
    if a == b {
        Order::Equal
    } else if bytes_lt(a, b) {
        Order::Less
    } else {
        Order::Greater
    }
}

/// How two keys compare.
pub open spec fn key_order(a: Key, b: Key) -> Order {
    if a == b {
        Order::Equal
    } else if key_lt(a, b) {
        Order::Less
    } else {
        Order::Greater
    }
}

/// An entry is among others with one in front exactly if it is that one or among the others.
pub(crate) proof fn lemma_in_front(e: Entry, rest: Seq<Entry>, x: Entry)
    ensures
        (seq![e] + rest).contains(x) <==> x == e || rest.contains(x),
{
    let all = seq![e] + rest;
    if all.contains(x) {
        let i = choose|i: int| 0 <= i < all.len() && all[i] == x;
        if i > 0 {
            assert(rest[i - 1] == x);
        }
    }
    if x == e {
        assert(all[0] == x);
    }
    if rest.contains(x) {
        let i = choose|i: int| 0 <= i < rest.len() && rest[i] == x;
        assert(all[i + 1] == x);
    }
}

/// One byte string is before another exactly if they agree up to a place where the other goes on and
/// the first either ends or has the smaller byte.
pub proof fn lemma_bytes_lt_exactly(a: Seq<u8>, b: Seq<u8>)
    ensures
        bytes_lt(a, b) <==> exists|n: int|
            0 <= n <= a.len() && n < b.len() && #[trigger] a.take(n) == b.take(n) && (n == a.len()
                || a[n] < b[n]),
    decreases a.len(),
{
    if a.len() == 0 && b.len() > 0 {
        assert(a.take(0) =~= b.take(0));
    }
    if a.len() > 0 && b.len() > 0 {
        let c = a.drop_first();
        let d = b.drop_first();
        lemma_bytes_lt_exactly(c, d);
        if a[0] < b[0] {
            assert(a.take(0) =~= b.take(0));
        }
        if a[0] == b[0] && bytes_lt(c, d) {
            let n = choose|n: int|
                0 <= n <= c.len() && n < d.len() && #[trigger] c.take(n) == d.take(n) && (n
                    == c.len() || c[n] < d[n]);
            assert forall|i: int| 0 <= i < n + 1 implies a[i] == b[i] by {
                if i > 0 {
                    assert(c.take(n)[i - 1] == d.take(n)[i - 1]);
                }
            }
            assert(a.take(n + 1) =~= b.take(n + 1));
        }
        if exists|n: int|
            0 <= n <= a.len() && n < b.len() && #[trigger] a.take(n) == b.take(n) && (n == a.len()
                || a[n] < b[n]) {
            let n = choose|n: int|
                0 <= n <= a.len() && n < b.len() && #[trigger] a.take(n) == b.take(n) && (n
                    == a.len() || a[n] < b[n]);
            if n > 0 {
                assert(a.take(n)[0] == b.take(n)[0]);
                assert forall|i: int| 0 <= i < n - 1 implies c[i] == d[i] by {
                    assert(a.take(n)[i + 1] == b.take(n)[i + 1]);
                }
                assert(c.take(n - 1) =~= d.take(n - 1));
            }
        }
    }
}

/// Keys order by their bytes alone where these differ, and the newer version of one key comes first.
pub proof fn lemma_key_lt_exactly(a: Key, b: Key)
    ensures
        a.key != b.key ==> (key_lt(a, b) <==> exists|n: int|
            0 <= n <= a.key.len() && n < b.key.len() && #[trigger] a.key.take(n) == b.key.take(n)
                && (n == a.key.len() || a.key[n] < b.key[n])),
        a.key == b.key ==> (key_lt(a, b) <==> a.ts > b.ts),
{
    lemma_bytes_lt_exactly(a.key, b.key);
    lemma_bytes_lt_irreflexive(a.key);
}

/// A comparison gives `Less` for what is before, `Greater` for what is behind and `Equal` for what is
/// the same, so that turning the arguments round turns the result round.
pub proof fn lemma_order(a: Key, b: Key)
    ensures
        key_order(a, b) == Order::Less <==> key_lt(a, b),
        key_order(a, b) == Order::Greater <==> key_lt(b, a),
        key_order(a, b) == Order::Equal <==> a == b,
        bytes_order(a.key, b.key) == Order::Less <==> bytes_lt(a.key, b.key),
        bytes_order(a.key, b.key) == Order::Greater <==> bytes_lt(b.key, a.key),
        bytes_order(a.key, b.key) == Order::Equal <==> a.key == b.key,
{
    lemma_key_lt_total(a, b);
    lemma_bytes_lt_total(a.key, b.key);
    lemma_bytes_lt_irreflexive(a.key);
    if key_lt(a, b) {
        lemma_key_lt_asymmetric(a, b);
    }
    if key_lt(b, a) {
        lemma_key_lt_asymmetric(b, a);
    }
    if bytes_lt(a.key, b.key) {
        lemma_bytes_lt_asymmetric(a.key, b.key);
    }
    if bytes_lt(b.key, a.key) {
        lemma_bytes_lt_asymmetric(b.key, a.key);
    }
}

proof fn lemma_bytes_lt_skip(a: Seq<u8>, b: Seq<u8>, i: int)
    requires
        0 <= i <= a.len(),
        i <= b.len(),
        a.take(i) == b.take(i),
    ensures
        bytes_lt(a, b) == bytes_lt(a.skip(i), b.skip(i)),
        (a == b) == (a.skip(i) == b.skip(i)),
    decreases i,
{
    if i == 0 {
        assert(a.skip(0) =~= a);
        assert(b.skip(0) =~= b);
    } else {
        assert(a.take(i)[0] == a[0]);
        assert(b.take(i)[0] == b[0]);
        assert(a.drop_first().take(i - 1) =~= a.take(i).drop_first());
        assert(b.drop_first().take(i - 1) =~= b.take(i).drop_first());
        lemma_bytes_lt_skip(a.drop_first(), b.drop_first(), i - 1);
        assert(a.drop_first().skip(i - 1) =~= a.skip(i));
        assert(b.drop_first().skip(i - 1) =~= b.skip(i));
        if a.skip(i) == b.skip(i) {
            assert(a =~= a.take(i) + a.skip(i));
            assert(b =~= b.take(i) + b.skip(i));
        }
    }
}

/// Compares two byte strings.
pub fn order_bytes(a: &[u8], b: &[u8]) -> (r: Order)
    ensures
        r == bytes_order(a@, b@),
{
    let mut i: usize = 0;
    while i < a.len() && i < b.len()
        invariant
            i <= a.len(),
            i <= b.len(),
            a@.take(i as int) == b@.take(i as int),
        decreases a.len() - i,
    {
        proof {
            lemma_bytes_lt_skip(a@, b@, i as int);
            assert(a@.skip(i as int)[0] == a@[i as int]);
            assert(b@.skip(i as int)[0] == b@[i as int]);
        }
        if a[i] < b[i] {
            return Order::Less;
        }
        if a[i] > b[i] {
            return Order::Greater;
        }
        proof {
            assert(a@.take(i + 1) =~= a@.take(i as int).push(a@[i as int]));
            assert(b@.take(i + 1) =~= b@.take(i as int).push(b@[i as int]));
        }
        i += 1;
    }
    proof {
        lemma_bytes_lt_skip(a@, b@, i as int);
    }
    if i < b.len() {
        Order::Less
    } else if i < a.len() {
        Order::Greater
    } else {
        assert(a@.take(i as int) =~= a@);
        assert(b@.take(i as int) =~= b@);
        Order::Equal
    }
}

/// Whether two byte strings are the same.
pub fn bytes_eq(a: &[u8], b: &[u8]) -> (r: bool)
    ensures
        r == (a@ == b@),
{
    match order_bytes(a, b) {
        Order::Equal => true,
        _ => false,
    }
}

/// A copy of a byte string.
pub fn copy_bytes(a: &[u8]) -> (r: Vec<u8>)
    ensures
        r@ == a@,
{
    let mut r: Vec<u8> = Vec::new();
    r.extend_from_slice(a);
    assert(r@ =~= a@);
    r
}

/// A borrowed key.
#[derive(Clone, Copy, Debug)]
pub struct KeySlice<'a> {
    pub key: &'a [u8],
    pub ts: u64,
}

impl<'a> View for KeySlice<'a> {
    type V = Key;

    open spec fn view(&self) -> Key {
        Key { key: self.key@, ts: self.ts }
    }
}

impl<'a> KeySlice<'a> {
    /// The key of the byte string `key` at version `ts`.
    pub fn from_slice(key: &'a [u8], ts: u64) -> (r: Self)
        ensures
            r@ == (Key { key: key@, ts }),
    {
        KeySlice { key, ts }
    }

    /// The byte string of the key.
    pub fn key_ref(&self) -> (r: &'a [u8])
        ensures
            r@ == self@.key,
    {
        self.key
    }

    /// The version of the key.
    pub fn ts(&self) -> (r: u64)
        ensures
            r == self@.ts,
    {
        self.ts
    }

    /// Compares two keys: byte strings ascending, then versions descending.
    pub fn order(&self, other: KeySlice<'_>) -> (r: Order)
        ensures
            r == key_order(self@, other@),
    {
        proof {
            lemma_bytes_lt_irreflexive(self@.key);
        }
        match order_bytes(self.key, other.key) {
            Order::Less => Order::Less,
            Order::Greater => Order::Greater,
            Order::Equal => if self.ts > other.ts {
                Order::Less
            } else if self.ts < other.ts {
                Order::Greater
            } else {
                Order::Equal
            },
        }
    }

    /// Whether this key precedes the other.
    pub fn precedes(&self, other: KeySlice<'_>) -> (r: bool)
        ensures
            r == key_lt(self@, other@),
    {
        proof {
            lemma_bytes_lt_irreflexive(self@.key);
        }
        match self.order(other) {
            Order::Less => true,
            _ => false,
        }
    }

    /// Whether this key and the other are the same.
    pub fn same_as(&self, other: KeySlice<'_>) -> (r: bool)
        ensures
            r == (self@ == other@),
    {
        self.ts == other.ts && bytes_eq(self.key, other.key)
    }

    /// An owned copy of the key.
    pub fn to_key_vec(&self) -> (r: KeyVec)
        ensures
            r@ == self@,
    {
        KeyVec { key: copy_bytes(self.key), ts: self.ts }
    }
}

/// An owned key.
#[derive(Debug, PartialEq, Eq)]
pub struct KeyVec {
    pub key: Vec<u8>,
    pub ts: u64,
}

/// An owned key that is kept unchanged, as in the metadata of a table.
pub type KeyBytes = KeyVec;

impl View for KeyVec {
    type V = Key;

    open spec fn view(&self) -> Key {
        Key { key: self.key@, ts: self.ts }
    }
}

impl Clone for KeyVec {
    fn clone(&self) -> (r: Self)
        ensures
            r@ == self@,
    {
        KeyVec { key: copy_bytes(self.key.as_slice()), ts: self.ts }
    }
}

impl KeyVec {
    /// The key with no bytes and no version.
    pub fn new() -> (r: Self)
        ensures
            r@ == (Key { key: Seq::empty(), ts: TS_DEFAULT }),
    {
        KeyVec { key: Vec::new(), ts: TS_DEFAULT }
    }

    /// The key of the byte string `key` at version `ts`.
    pub fn from_vec_with_ts(key: Vec<u8>, ts: u64) -> (r: Self)
        ensures
            r@ == (Key { key: key@, ts }),
    {
        KeyVec { key, ts }
    }

    /// The key, borrowed.
    pub fn as_key_slice(&self) -> (r: KeySlice<'_>)
        ensures
            r@ == self@,
    {
        KeySlice { key: self.key.as_slice(), ts: self.ts }
    }

    /// The byte string of the key.
    pub fn key_ref(&self) -> (r: &[u8])
        ensures
            r@ == self@.key,
    {
        self.key.as_slice()
    }

    /// The version of the key.
    pub fn ts(&self) -> (r: u64)
        ensures
            r == self@.ts,
    {
        self.ts
    }

    /// Whether the key has no bytes.
    pub fn is_empty(&self) -> (r: bool)
        ensures
            r == (self@.key.len() == 0),
    {
        self.key.len() == 0
    }

    /// Makes this key equal to `key`.
    pub fn set_from_slice(&mut self, key: KeySlice<'_>)
        ensures
            final(self)@ == key@,
    {
        *self = key.to_key_vec();
    }
}

} // verus!
