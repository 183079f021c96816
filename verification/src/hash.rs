//! The checksum and the key hash that the formats use.

use vstd::prelude::*;

use crate::key::Entry;

verus! {

/// The CRC-32 checksum of `data`.
pub uninterp spec fn crc32_of(data: Seq<u8>) -> u32;

/// The 32-bit farmhash fingerprint of `data`.
pub uninterp spec fn fingerprint32_of(data: Seq<u8>) -> u32;

/// Calls `crc32fast::hash`. Claimed of it: its result is a function of the bytes alone.
#[verifier::external_body]
pub(crate) fn crc32(data: &[u8]) -> (r: u32)
    ensures
        r == crc32_of(data@),
{
    crc32fast::hash(data)
}

/// The four bytes of `data` from `at` on as a number, the lowest byte first.
pub open spec fn word(data: Seq<u8>, at: int) -> int {
    data[at] + 0x100 * data[at + 1] + 0x1_0000 * data[at + 2] + 0x100_0000 * data[at + 3]
}

/// The bytes can be hashed: the additions that `farmhash::fingerprint32` makes on 5 to 24 bytes
/// without wrapping stay in 32 bits. All other additions wrap.
pub open spec fn hashable(data: Seq<u8>) -> bool {
    let n = data.len() as int;
    if 5 <= n <= 12 {
        &&& n + word(data, 0) <= u32::MAX
        &&& 5 * n + word(data, n - 4) <= u32::MAX
        &&& 9 + word(data, if n < 8 { 0 } else { 4 }) <= u32::MAX
    } else if 13 <= n <= 24 {
        (word(data, n / 2) * 0xcc9e_2d51) % 0x1_0000_0000 + n <= u32::MAX
    } else {
        true
    }
}

/// The keys of the entries can be hashed.
pub open spec fn hashable_keys(es: Seq<Entry>) -> bool {
    forall|i: int| 0 <= i < es.len() ==> hashable((#[trigger] es[i]).key.key)
}

/// Calls `farmhash::fingerprint32`. Claimed of it: its result is a function of the bytes alone,
/// the same on every platform. Bytes that are not `hashable` are left out: on them an addition
/// overflows, which panics where overflow is checked.
#[verifier::external_body]
pub(crate) fn fingerprint32(data: &[u8]) -> (r: u32)
    requires
        hashable(data@),
    ensures
        r == fingerprint32_of(data@),
{
    farmhash::fingerprint32(data)
}

/// The number in four bytes from `at` on.
fn read_word(data: &[u8], at: usize) -> (r: u64)
    requires
        at + 4 <= data@.len(),
    ensures
        r == word(data@, at as int),
        r <= u32::MAX,
{
    data[at] as u64 + 0x100 * data[at + 1] as u64 + 0x1_0000 * data[at + 2] as u64 + 0x100_0000
        * data[at + 3] as u64
}

/// Whether bytes can be hashed.
pub fn can_hash(data: &[u8]) -> (r: bool)
    ensures
        r == hashable(data@),
{
    let n: usize = data.len();
    let max: u64 = 0xffff_ffff;
    if 5 <= n && n <= 12 {
        let middle: usize = if n < 8 {
            0
        } else {
            4
        };
        n as u64 + read_word(data, 0) <= max && 5 * n as u64 + read_word(data, n - 4) <= max && 9
            + read_word(data, middle) <= max
    } else if 13 <= n && n <= 24 {
        (read_word(data, n / 2) * 0xcc9e_2d51) % 0x1_0000_0000 + n as u64 <= max
    } else {
        true
    }
}

} // verus!
