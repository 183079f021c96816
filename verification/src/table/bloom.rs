//! A bloom filter over key hashes: it may report a key that is absent, and never misses one that
//! is present.

use vstd::prelude::*;

use crate::codec;
use crate::codec::{put_slice, put_u32, read_u32};
use crate::error::StorageError;
use crate::hash;
use crate::key;

verus! {

/// The number of filter bits per key, for about one false report in a hundred.
pub const BITS_PER_KEY: usize = 10;

/// The mathematical value of a bloom filter.
#[verifier::ext_equal]
pub struct BloomView {
    pub filter: Seq<u8>,
    pub k: u8,
}

impl BloomView {
    /// The number of bits of the filter.
    pub open spec fn nbits(self) -> int {
        8 * self.filter.len() as int
    }
}

/// Bit `i` of the filter is set.
pub open spec fn bit_set(filter: Seq<u8>, i: int) -> bool {
    filter[i / 8] & (1u8 << ((i % 8) as u8)) != 0
}

/// The step between two probes of a hash: the hash rotated left by fifteen bits.
pub open spec fn probe_step(h: u32) -> u32 {
    (h << 15) | (h >> 17)
}

/// The `j`-th probe of a hash.
pub open spec fn probe(h: u32, j: int) -> u32 {
    ((h + j * probe_step(h)) % 0x1_0000_0000) as u32
}

/// The bit that the `j`-th probe of a hash looks at in a filter of `nbits` bits.
pub open spec fn probe_bit(h: u32, j: int, nbits: int) -> int {
    probe(h, j) as int % nbits
}

/// All probes of `h` hit a set bit.
pub open spec fn hit(b: BloomView, h: u32) -> bool {
    forall|j: int| 0 <= j < b.k ==> bit_set(b.filter, #[trigger] probe_bit(h, j, b.nbits()))
}

/// Bit `i` is the target of a probe of one of the first `n` hashes.
pub open spec fn targeted(hashes: Seq<u32>, k: int, nbits: int, i: int) -> bool {
    exists|a: int, j: int|
        0 <= a < hashes.len() && 0 <= j < k && #[trigger] probe_bit(hashes[a], j, nbits) == i
}

/// The number of probes for a number of bits per key: about `0.69` times it, from 1 to 30.
pub open spec fn probes_for(bits_per_key: int) -> int {
    let k = bits_per_key * 69 / 100;
    if k < 1 {
        1
    } else if k > 30 {
        30
    } else {
        k
    }
}

/// The number of bytes of the filter for `n` keys: at least eight.
pub open spec fn filter_len(n: int, bits_per_key: int) -> int {
    let bits = n * bits_per_key;
    ((if bits < 64 {
        64
    } else {
        bits
    }) + 7) / 8
}

/// The filter holds exactly the bits that the hashes target.
pub open spec fn built_from(b: BloomView, hashes: Seq<u32>, bits_per_key: int) -> bool {
    &&& b.k == probes_for(bits_per_key)
    &&& b.filter.len() == filter_len(hashes.len() as int, bits_per_key)
    &&& forall|i: int|
        0 <= i < b.nbits() ==> (#[trigger] bit_set(b.filter, i) <==> targeted(
            hashes,
            b.k as int,
            b.nbits(),
            i,
        ))
}

/// The byte with the given bits, the lowest first.
pub open spec fn byte_of(bit: spec_fn(int) -> bool) -> u8 {
    (if bit(0) { 1u8 } else { 0u8 }) | (if bit(1) { 2u8 } else { 0u8 }) | (if bit(2) {
        4u8
    } else {
        0u8
    }) | (if bit(3) { 8u8 } else { 0u8 }) | (if bit(4) { 16u8 } else { 0u8 }) | (if bit(5) {
        32u8
    } else {
        0u8
    }) | (if bit(6) { 64u8 } else { 0u8 }) | (if bit(7) { 128u8 } else { 0u8 })
}

/// The filter that holds exactly the bits that the hashes target.
pub open spec fn bloom_of(hashes: Seq<u32>, bits_per_key: int) -> BloomView {
    let k = probes_for(bits_per_key);
    let len = filter_len(hashes.len() as int, bits_per_key);
    BloomView {
        filter: Seq::new(
            len as nat,
            |a: int| byte_of(|j: int| targeted(hashes, k, 8 * len, 8 * a + j)),
        ),
        k: k as u8,
    }
}

proof fn lemma_byte_of(bit: spec_fn(int) -> bool, j: u8)
    requires
        j < 8,
    ensures
        (byte_of(bit) & (1u8 << j) != 0) == bit(j as int),
{
    let x = byte_of(bit);
    let b0 = bit(0);
    let b1 = bit(1);
    let b2 = bit(2);
    let b3 = bit(3);
    let b4 = bit(4);
    let b5 = bit(5);
    let b6 = bit(6);
    let b7 = bit(7);
    assert({
        &&& (x & (1u8 << 0u8) != 0) == b0
        &&& (x & (1u8 << 1u8) != 0) == b1
        &&& (x & (1u8 << 2u8) != 0) == b2
        &&& (x & (1u8 << 3u8) != 0) == b3
        &&& (x & (1u8 << 4u8) != 0) == b4
        &&& (x & (1u8 << 5u8) != 0) == b5
        &&& (x & (1u8 << 6u8) != 0) == b6
        &&& (x & (1u8 << 7u8) != 0) == b7
    }) by (bit_vector)
        requires
            x == (if b0 { 1u8 } else { 0u8 }) | (if b1 { 2u8 } else { 0u8 }) | (if b2 {
                4u8
            } else {
                0u8
            }) | (if b3 { 8u8 } else { 0u8 }) | (if b4 { 16u8 } else { 0u8 }) | (if b5 {
                32u8
            } else {
                0u8
            }) | (if b6 { 64u8 } else { 0u8 }) | (if b7 { 128u8 } else { 0u8 }),
    ;
}

/// That filter is built from the hashes.
pub proof fn lemma_bloom_of_built(hashes: Seq<u32>, bits_per_key: int)
    requires
        bits_per_key >= 0,
    ensures
        built_from(bloom_of(hashes, bits_per_key), hashes, bits_per_key),
{
    let b = bloom_of(hashes, bits_per_key);
    let k = probes_for(bits_per_key);
    let len = filter_len(hashes.len() as int, bits_per_key);
    assert(len >= 0) by {
        assert(hashes.len() * bits_per_key >= 0) by (nonlinear_arith)
            requires
                bits_per_key >= 0,
        ;
    }
    assert forall|i: int| 0 <= i < b.nbits() implies (#[trigger] bit_set(b.filter, i) <==> targeted(
        hashes,
        b.k as int,
        b.nbits(),
        i,
    )) by {
        let a = i / 8;
        let bit = |j: int| targeted(hashes, k, 8 * len, 8 * a + j);
        lemma_byte_of(bit, (i % 8) as u8);
        assert(b.filter[a] == byte_of(bit));
        assert(8 * a + i % 8 == i);
    }
}

/// A filter reports every hash that it was built from.
pub proof fn lemma_no_false_negative(b: BloomView, hashes: Seq<u32>, bits_per_key: int, a: int)
    requires
        built_from(b, hashes, bits_per_key),
        0 <= a < hashes.len(),
    ensures
        hit(b, hashes[a]),
{
    assert forall|j: int| 0 <= j < b.k implies bit_set(
        b.filter,
        #[trigger] probe_bit(hashes[a], j, b.nbits()),
    ) by {
        let i = probe_bit(hashes[a], j, b.nbits());
        assert(targeted(hashes, b.k as int, b.nbits(), i));
    }
}

proof fn lemma_same_bit(f: Seq<u8>, g: Seq<u8>, a: int, b: u8)
    requires
        0 <= a < f.len(),
        f.len() == g.len(),
        b < 8,
        forall|i: int| 0 <= i < 8 * f.len() ==> #[trigger] bit_set(f, i) == bit_set(g, i),
    ensures
        (f[a] & (1u8 << b) != 0) == (g[a] & (1u8 << b) != 0),
{
    let i = 8 * a + b;
    assert(bit_set(f, i) == bit_set(g, i));
    assert(i / 8 == a && i % 8 == b);
}

/// Two filters with the same bits are the same.
proof fn lemma_bits_determine(f: Seq<u8>, g: Seq<u8>)
    requires
        f.len() == g.len(),
        forall|i: int| 0 <= i < 8 * f.len() ==> #[trigger] bit_set(f, i) == bit_set(g, i),
    ensures
        f == g,
{
    assert forall|a: int| 0 <= a < f.len() implies f[a] == g[a] by {
        let x = f[a];
        let y = g[a];
        lemma_same_bit(f, g, a, 0u8);
        lemma_same_bit(f, g, a, 1u8);
        lemma_same_bit(f, g, a, 2u8);
        lemma_same_bit(f, g, a, 3u8);
        lemma_same_bit(f, g, a, 4u8);
        lemma_same_bit(f, g, a, 5u8);
        lemma_same_bit(f, g, a, 6u8);
        lemma_same_bit(f, g, a, 7u8);
        assert(x == y) by (bit_vector)
            requires
                (x & (1u8 << 0u8) != 0) == (y & (1u8 << 0u8) != 0),
                (x & (1u8 << 1u8) != 0) == (y & (1u8 << 1u8) != 0),
                (x & (1u8 << 2u8) != 0) == (y & (1u8 << 2u8) != 0),
                (x & (1u8 << 3u8) != 0) == (y & (1u8 << 3u8) != 0),
                (x & (1u8 << 4u8) != 0) == (y & (1u8 << 4u8) != 0),
                (x & (1u8 << 5u8) != 0) == (y & (1u8 << 5u8) != 0),
                (x & (1u8 << 6u8) != 0) == (y & (1u8 << 6u8) != 0),
                (x & (1u8 << 7u8) != 0) == (y & (1u8 << 7u8) != 0),
        ;
    }
    assert(f =~= g);
}

/// The hashes and the number of bits per key determine the filter.
pub proof fn lemma_bloom_of(b: BloomView, hashes: Seq<u32>, bits_per_key: int)
    requires
        bits_per_key >= 0,
        built_from(b, hashes, bits_per_key),
    ensures
        b == bloom_of(hashes, bits_per_key),
{
    let c = bloom_of(hashes, bits_per_key);
    lemma_bloom_of_built(hashes, bits_per_key);
    lemma_bits_determine(b.filter, c.filter);
    assert(b =~= c);
}

/// The bytes of a filter: its bits, the number of probes and a checksum.
pub open spec fn bloom_bytes(b: BloomView) -> Seq<u8> {
    b.filter.push(b.k) + codec::be32(hash::crc32_of(b.filter.push(b.k)))
}

/// What is read from the bytes of a filter.
pub open spec fn bloom_decoded(raw: Seq<u8>) -> Result<BloomView, StorageError> {
    if raw.len() < 5 {
        Err(StorageError::CorruptBloom)
    } else if hash::crc32_of(raw.take(raw.len() - 4)) != codec::get32(raw, raw.len() - 4) {
        Err(StorageError::BloomChecksumMismatch)
    } else {
        Ok(BloomView { filter: raw.take(raw.len() - 5), k: raw[raw.len() - 5] })
    }
}

/// A filter is read back from its bytes.
pub proof fn lemma_bloom_round_trip(b: BloomView)
    ensures
        bloom_decoded(bloom_bytes(b)) == Ok::<BloomView, StorageError>(b),
{
    let raw = bloom_bytes(b);
    let body = b.filter.push(b.k);
    assert(raw.take(raw.len() - 4) =~= body);
    codec::lemma_holds_at_tail(body, codec::be32(hash::crc32_of(body)));
    codec::lemma_get32(raw, body.len() as int, hash::crc32_of(body));
    assert(raw.take(raw.len() - 5) =~= b.filter);
}

/// The number of probes is the whole part of 0.69 times the bits per key, but at least one and at
/// most thirty.
pub proof fn lemma_probes_for(bits_per_key: int)
    requires
        bits_per_key >= 0,
    ensures
        1 <= probes_for(bits_per_key) <= 30,
        probes_for(bits_per_key) > 1 ==> 100 * probes_for(bits_per_key) <= 69 * bits_per_key,
        probes_for(bits_per_key) < 30 ==> 69 * bits_per_key < 100 * (probes_for(bits_per_key) + 1),
{
}

/// A filter has the least number of bytes that hold the bits per key for each key and at least 64
/// bits.
pub proof fn lemma_filter_len(n: int, bits_per_key: int)
    ensures
        8 * filter_len(n, bits_per_key) >= n * bits_per_key,
        8 * filter_len(n, bits_per_key) >= 64,
        8 * (filter_len(n, bits_per_key) - 1) < n * bits_per_key || filter_len(n, bits_per_key) == 8,
{
}

/// The first probe of a hash is the hash itself, and each next one adds the hash turned round by
/// fifteen bits.
pub proof fn lemma_probe_sequence(h: u32, j: int)
    requires
        j >= 0,
    ensures
        probe(h, 0) == h,
        probe(h, j + 1) == (probe(h, j) + probe_step(h)) % 0x1_0000_0000,
        probe_step(h) == (h as u64 * 0x8000) % 0x1_0000_0000 + h / 0x2_0000,
{
    let d = probe_step(h) as int;
    assert(0 * d == 0) by (nonlinear_arith);
    assert((j + 1) * d == j * d + d) by (nonlinear_arith);
    let x = h + j * d;
    assert(x >= 0) by (nonlinear_arith)
        requires
            x == h + j * d,
            j >= 0,
            d >= 0,
    ;
    assert((x + d) % 0x1_0000_0000 == (x % 0x1_0000_0000 + d) % 0x1_0000_0000);
    assert(((h << 15) | (h >> 17)) == (h as u64 * 0x8000) % 0x1_0000_0000 + h / 0x2_0000)
        by (bit_vector);
}

/// In a filter a bit is set exactly if a probe of one of the keys falls on it.
pub proof fn lemma_bits_exactly(hashes: Seq<u32>, bits_per_key: int, i: int)
    requires
        bits_per_key >= 0,
        0 <= i < 8 * bloom_of(hashes, bits_per_key).filter.len(),
    ensures
        ({
            let b = bloom_of(hashes, bits_per_key);
            let n = 8 * b.filter.len() as int;
            bit_set(b.filter, i) <==> exists|a: int, j: int|
                0 <= a < hashes.len() && 0 <= j < b.k && (#[trigger] probe(hashes[a], j)) as int % n
                    == i
        }),
{
    let b = bloom_of(hashes, bits_per_key);
    let n = 8 * b.filter.len() as int;
    lemma_bloom_of_built(hashes, bits_per_key);
    if bit_set(b.filter, i) {
        let (a, j) = choose|a: int, j: int|
            0 <= a < hashes.len() && 0 <= j < b.k && #[trigger] probe_bit(hashes[a], j, n) == i;
        assert(probe(hashes[a], j) as int % n == i);
    }
    if exists|a: int, j: int|
        0 <= a < hashes.len() && 0 <= j < b.k && (#[trigger] probe(hashes[a], j)) as int % n == i {
        let (a, j) = choose|a: int, j: int|
            0 <= a < hashes.len() && 0 <= j < b.k && (#[trigger] probe(hashes[a], j)) as int % n
                == i;
        assert(probe_bit(hashes[a], j, n) == i);
    }
}

/// A hash is reported exactly if all its probes fall on bits that are set.
pub proof fn lemma_hit_exactly(b: BloomView, h: u32)
    ensures
        hit(b, h) <==> forall|j: int|
            0 <= j < b.k ==> bit_set(
                b.filter,
                (#[trigger] probe(h, j)) as int % (8 * b.filter.len() as int),
            ),
{
    if forall|j: int|
        0 <= j < b.k ==> bit_set(
            b.filter,
            (#[trigger] probe(h, j)) as int % (8 * b.filter.len() as int),
        ) {
        assert forall|j: int| 0 <= j < b.k implies bit_set(
            b.filter,
            #[trigger] probe_bit(h, j, b.nbits()),
        ) by {
            assert(probe(h, j) as int % (8 * b.filter.len() as int) == probe_bit(h, j, b.nbits()));
        }
    }
    if hit(b, h) {
        assert forall|j: int| 0 <= j < b.k implies bit_set(
            b.filter,
            (#[trigger] probe(h, j)) as int % (8 * b.filter.len() as int),
        ) by {
            assert(bit_set(b.filter, probe_bit(h, j, b.nbits())));
        }
    }
}

/// Bit `i` of a filter is bit `i % 8` of its byte `i / 8`, counted from the least significant one.
pub proof fn lemma_bit_place(filter: Seq<u8>, i: int)
    requires
        0 <= i,
    ensures
        bit_set(filter, i) <==> (filter[i / 8] >> ((i % 8) as u8)) % 2 == 1,
{
    let x = filter[i / 8];
    let k = (i % 8) as u8;
    assert((x & (1u8 << k) != 0) <==> (x >> k) % 2 == 1) by (bit_vector)
        requires
            k < 8,
    ;
}

/// A filter is stored as its bytes, the number of probes in one byte and the checksum of both in
/// four bytes; it is read only where the checksum is right.
pub proof fn lemma_bloom_layout(b: BloomView, raw: Seq<u8>)
    ensures
        bloom_bytes(b).len() == b.filter.len() + 5,
        bloom_bytes(b).take(b.filter.len() as int) == b.filter,
        bloom_bytes(b)[b.filter.len() as int] == b.k,
        codec::get32(bloom_bytes(b), b.filter.len() as int + 1) == hash::crc32_of(
            bloom_bytes(b).take(b.filter.len() as int + 1),
        ),
        raw.len() < 5 ==> bloom_decoded(raw) == Err::<BloomView, StorageError>(
            StorageError::CorruptBloom,
        ),
        raw.len() >= 5 && hash::crc32_of(raw.take(raw.len() - 4)) != codec::get32(
            raw,
            raw.len() - 4,
        ) ==> bloom_decoded(raw) == Err::<BloomView, StorageError>(
            StorageError::BloomChecksumMismatch,
        ),
        raw.len() >= 5 && hash::crc32_of(raw.take(raw.len() - 4)) == codec::get32(
            raw,
            raw.len() - 4,
        ) ==> (bloom_decoded(raw) matches Ok(d) && d.filter == raw.take(raw.len() - 5) && d.k
            == raw[raw.len() - 5]),
{
    let all = bloom_bytes(b);
    let front = b.filter.push(b.k);
    let n = front.len() as int;
    assert(all.take(n) =~= front);
    assert(all.take(n - 1) =~= b.filter);
    assert(all.subrange(n, n + 4) =~= codec::be32(hash::crc32_of(front)));
    codec::lemma_get32(all, n, hash::crc32_of(front));
}

/// A bloom filter.
pub struct Bloom {
    filter: Vec<u8>,
    k: u8,
}

impl View for Bloom {
    type V = BloomView;

    closed spec fn view(&self) -> BloomView {
        BloomView { filter: self.filter@, k: self.k }
    }
}

/// Sets bit `i`.
fn set_bit(filter: &mut Vec<u8>, i: usize)
    requires
        i < 8 * old(filter)@.len(),
    ensures
        final(filter)@.len() == old(filter)@.len(),
        forall|j: int|
            0 <= j < 8 * old(filter)@.len() ==> (#[trigger] bit_set(final(filter)@, j) <==> (j == i
                || bit_set(old(filter)@, j))),
{
    let at: usize = i / 8;
    let off: u8 = (i % 8) as u8;
    let x: u8 = filter[at];
    let y: u8 = x | (1u8 << off);
    filter.set(at, y);
    proof {
        assert forall|j: int| 0 <= j < 8 * old(filter)@.len() implies (#[trigger] bit_set(filter@, j)
            <==> (j == i || bit_set(old(filter)@, j))) by {
            if j / 8 == at {
                let b = (j % 8) as u8;
                assert(((x | (1u8 << off)) & (1u8 << b) != 0) == (b == off || (x & (1u8 << b)
                    != 0))) by (bit_vector)
                    requires
                        off < 8,
                        b < 8,
                ;
            }
        }
    }
}

/// Whether bit `i` is set.
fn get_bit(filter: &Vec<u8>, i: usize) -> (r: bool)
    requires
        i < 8 * filter@.len(),
    ensures
        r == bit_set(filter@, i as int),
{
    let off: u8 = (i % 8) as u8;
    filter[i / 8] & (1u8 << off) != 0
}

proof fn lemma_probe_next(h: u32, j: int)
    requires
        0 <= j,
    ensures
        probe(h, j + 1) == (probe(h, j) + probe_step(h)) % 0x1_0000_0000,
{
    let d = probe_step(h) as int;
    let m = 0x1_0000_0000int;
    assert((j + 1) * d == j * d + d) by (nonlinear_arith);
    vstd::arithmetic::div_mod::lemma_add_mod_noop(h + j * d, d, m);
    assert(0 <= d < m);
    vstd::arithmetic::div_mod::lemma_small_mod(d as nat, m as nat);
}

impl Bloom {
    /// Builds the filter of the given key hashes.
    pub fn build_from_key_hashes(keys: &[u32], bits_per_key: usize) -> (r: Self)
        requires
            keys@.len() * bits_per_key + 64 <= usize::MAX,
            bits_per_key <= 0xffff,
        ensures
            built_from(r@, keys@, bits_per_key as int),
    {
        let scaled: usize = bits_per_key * 69 / 100;
        let k: u8 = if scaled < 1 {
            1
        } else if scaled > 30 {
            30
        } else {
            scaled as u8
        };
        assert(keys.len() * bits_per_key >= 0) by (nonlinear_arith)
            requires
                keys.len() >= 0,
                bits_per_key >= 0,
        ;
        let bits: usize = keys.len() * bits_per_key;
        let nbytes: usize = (if bits < 64 {
            64
        } else {
            bits
        } + 7) / 8;
        let mut filter: Vec<u8> = Vec::new();
        let mut i: usize = 0;
        while i < nbytes
            invariant
                i <= nbytes,
                filter@.len() == i,
                forall|j: int| 0 <= j < i ==> filter@[j] == 0,
            decreases nbytes - i,
        {
            filter.push(0);
            i += 1;
        }
        let nbits: usize = nbytes * 8;
        let ghost nb = nbits as int;
        proof {
            assert forall|b: int| 0 <= b < nb implies !(#[trigger] bit_set(filter@, b)) by {
                let off = (b % 8) as u8;
                assert(0u8 & (1u8 << off) == 0) by (bit_vector);
            }
        }
        let mut a: usize = 0;
        while a < keys.len()
            invariant
                a <= keys@.len(),
                filter@.len() == nbytes,
                nbits == nbytes * 8,
                nb == nbits,
                nbits >= 64,
                forall|b: int|
                    0 <= b < nb ==> (#[trigger] bit_set(filter@, b) <==> targeted(
                        keys@.take(a as int),
                        k as int,
                        nb,
                        b,
                    )),
            decreases keys@.len() - a,
        {
            let h: u32 = keys[a];
            let delta: u32 = (h << 15) | (h >> 17);
            let mut cur: u32 = h;
            let mut j: u8 = 0;
            let ghost before = filter@;
            assert(probe(h, 0) == h) by {
                assert(0 * probe_step(h) == 0) by (nonlinear_arith);
            }
            while j < k
                invariant
                    j <= k,
                    cur == probe(h, j as int),
                    delta == probe_step(h),
                    filter@.len() == nbytes,
                    nbits == nbytes * 8,
                    nb == nbits,
                    nbits >= 64,
                    forall|b: int|
                        0 <= b < nb ==> (#[trigger] bit_set(filter@, b) <==> (bit_set(before, b)
                            || exists|l: int|
                            0 <= l < j && #[trigger] probe_bit(h, l, nb) == b)),
                decreases k - j,
            {
                let bit: usize = (cur as usize) % nbits;
                let ghost prev = filter@;
                set_bit(&mut filter, bit);
                proof {
                    assert(bit == probe_bit(h, j as int, nb));
                    lemma_probe_next(h, j as int);
                    assert forall|b: int| 0 <= b < nb implies (#[trigger] bit_set(filter@, b) <==> (
                    bit_set(before, b) || exists|l: int|
                        0 <= l < j + 1 && #[trigger] probe_bit(h, l, nb) == b)) by {
                        assert(bit_set(filter@, b) <==> (b == bit || bit_set(prev, b)));
                        if exists|l: int| 0 <= l < j + 1 && #[trigger] probe_bit(h, l, nb) == b {
                            let l = choose|l: int|
                                0 <= l < j + 1 && #[trigger] probe_bit(h, l, nb) == b;
                            assert(l == j || (0 <= l < j && probe_bit(h, l, nb) == b));
                        }
                    }
                }
                cur = cur.wrapping_add(delta);
                j += 1;
            }
            proof {
                let t0 = keys@.take(a as int);
                let t1 = keys@.take(a + 1);
                assert forall|b: int| 0 <= b < nb implies (#[trigger] bit_set(filter@, b)
                    <==> targeted(t1, k as int, nb, b)) by {
                    assert(bit_set(before, b) <==> targeted(t0, k as int, nb, b));
                    if targeted(t0, k as int, nb, b) {
                        let (c, l) = choose|c: int, l: int|
                            0 <= c < t0.len() && 0 <= l < k && #[trigger] probe_bit(t0[c], l, nb)
                                == b;
                        assert(t1[c] == t0[c]);
                        assert(probe_bit(t1[c], l, nb) == b);
                    }
                    if exists|l: int| 0 <= l < k && #[trigger] probe_bit(h, l, nb) == b {
                        let l = choose|l: int| 0 <= l < k && #[trigger] probe_bit(h, l, nb) == b;
                        assert(t1[a as int] == h);
                        assert(probe_bit(t1[a as int], l, nb) == b);
                    }
                    if targeted(t1, k as int, nb, b) {
                        let (c, l) = choose|c: int, l: int|
                            0 <= c < t1.len() && 0 <= l < k && #[trigger] probe_bit(t1[c], l, nb)
                                == b;
                        if c < a {
                            assert(t0[c] == t1[c]);
                            assert(probe_bit(t0[c], l, nb) == b);
                        } else {
                            assert(t1[c] == h);
                        }
                    }
                }
            }
            a += 1;
        }
        assert(keys@.take(a as int) =~= keys@);
        Bloom { filter, k }
    }

    /// Whether a key with this hash may be present. A filter with more than thirty probes or
    /// without bits reports every key.
    pub fn may_contain(&self, h: u32) -> (r: bool)
        requires
            8 * self@.filter.len() <= usize::MAX,
        ensures
            r == (self@.k > 30 || self@.filter.len() == 0 || hit(self@, h)),
    {
        if self.k > 30 || self.filter.len() == 0 {
            return true;
        }
        let nbits: usize = self.filter.len() * 8;
        let delta: u32 = (h << 15) | (h >> 17);
        let mut cur: u32 = h;
        let mut j: u8 = 0;
        assert(probe(h, 0) == h) by {
            assert(0 * probe_step(h) == 0) by (nonlinear_arith);
        }
        while j < self.k
            invariant
                j <= self.k <= 30,
                cur == probe(h, j as int),
                delta == probe_step(h),
                nbits == 8 * self.filter@.len(),
                nbits > 0,
                forall|l: int|
                    0 <= l < j ==> bit_set(self.filter@, #[trigger] probe_bit(h, l, nbits as int)),
            decreases self.k - j,
        {
            let bit: usize = (cur as usize) % nbits;
            assert(bit == probe_bit(h, j as int, nbits as int));
            if !get_bit(&self.filter, bit) {
                assert(self@.nbits() == nbits);
                assert(!hit(self@, h)) by {
                    assert(!bit_set(self@.filter, probe_bit(h, j as int, self@.nbits())));
                }
                return false;
            }
            proof {
                lemma_probe_next(h, j as int);
            }
            cur = cur.wrapping_add(delta);
            j += 1;
        }
        true
    }

    /// Appends the bytes of the filter.
    pub fn encode(&self, buf: &mut Vec<u8>)
        ensures
            final(buf)@ == old(buf)@ + bloom_bytes(self@),
    {
        let mut body: Vec<u8> = key::copy_bytes(self.filter.as_slice());
        body.push(self.k);
        let sum: u32 = hash::crc32(body.as_slice());
        put_slice(buf, body.as_slice());
        put_u32(buf, sum);
        assert(buf@ =~= old(buf)@ + bloom_bytes(self@));
    }

    /// Reads a filter from its bytes.
    pub fn decode(raw: &[u8]) -> (r: Result<Bloom, StorageError>)
        ensures
            match r {
                Ok(b) => bloom_decoded(raw@) == Ok::<BloomView, StorageError>(b@),
                Err(e) => bloom_decoded(raw@) == Err::<BloomView, StorageError>(e),
            },
    {
        let len: usize = raw.len();
        if len < 5 {
            return Err(StorageError::CorruptBloom);
        }
        let body: &[u8] = vstd::slice::slice_subrange(raw, 0, len - 4);
        assert(body@ =~= raw@.take(len - 4));
        if hash::crc32(body) != read_u32(raw, len - 4) {
            return Err(StorageError::BloomChecksumMismatch);
        }
        let filter: Vec<u8> = key::copy_bytes(vstd::slice::slice_subrange(raw, 0, len - 5));
        assert(filter@ =~= raw@.take(len - 5));
        Ok(Bloom { filter, k: raw[len - 5] })
    }
}

} // verus!
