//! Integers and byte strings in big-endian form.

use vstd::prelude::*;

verus! {

pub open spec fn be16(x: u16) -> Seq<u8> {
    seq![(x / 256) as u8, (x % 256) as u8]
}

pub open spec fn be32(x: u32) -> Seq<u8> {
    be16((x / 0x1_0000) as u16) + be16((x % 0x1_0000) as u16)
}

pub open spec fn be64(x: u64) -> Seq<u8> {
    be32((x / 0x1_0000_0000) as u32) + be32((x % 0x1_0000_0000) as u32)
}

/// The two-byte integer at `pos`.
pub open spec fn get16(s: Seq<u8>, pos: int) -> u16 {
    (s[pos] * 256 + s[pos + 1]) as u16
}

/// The four-byte integer at `pos`.
pub open spec fn get32(s: Seq<u8>, pos: int) -> u32 {
    (get16(s, pos) * 0x1_0000 + get16(s, pos + 2)) as u32
}

/// The eight-byte integer at `pos`.
pub open spec fn get64(s: Seq<u8>, pos: int) -> u64 {
    (get32(s, pos) * 0x1_0000_0000 + get32(s, pos + 4)) as u64
}

/// `part` stands in `s` at `pos`.
pub open spec fn holds_at(s: Seq<u8>, pos: int, part: Seq<u8>) -> bool {
    &&& 0 <= pos
    &&& pos + part.len() <= s.len()
    &&& s.subrange(pos, pos + part.len()) == part
}

/// A part of a part that stands in `s` stands in `s` too.
pub proof fn lemma_holds_at_sub(s: Seq<u8>, pos: int, part: Seq<u8>, from: int, sub: Seq<u8>)
    requires
        holds_at(s, pos, part),
        holds_at(part, from, sub),
    ensures
        holds_at(s, pos + from, sub),
{
    assert(s.subrange(pos + from, pos + from + sub.len()) =~= part.subrange(from, from + sub.len()));
}

/// The pieces of a concatenation stand one behind the other.
pub proof fn lemma_holds_at_concat(s: Seq<u8>, pos: int, a: Seq<u8>, b: Seq<u8>)
    requires
        holds_at(s, pos, a + b),
    ensures
        holds_at(s, pos, a),
        holds_at(s, pos + a.len(), b),
{
    assert((a + b).subrange(0, a.len() as int) =~= a);
    assert((a + b).subrange(a.len() as int, (a + b).len() as int) =~= b);
    lemma_holds_at_sub(s, pos, a + b, 0, a);
    lemma_holds_at_sub(s, pos, a + b, a.len() as int, b);
}

/// Two parts that stand one after the other stand there together.
pub proof fn lemma_holds_at_join(s: Seq<u8>, pos: int, a: Seq<u8>, b: Seq<u8>)
    requires
        holds_at(s, pos, a),
        holds_at(s, pos + a.len(), b),
    ensures
        holds_at(s, pos, a + b),
{
    assert(s.subrange(pos, pos + (a + b).len()) =~= s.subrange(pos, pos + a.len()) + s.subrange(
        pos + a.len(),
        pos + a.len() + b.len(),
    ));
}

/// A part that stands in `s` also stands in what begins with `s`.
pub proof fn lemma_holds_at_extend(s: Seq<u8>, tail: Seq<u8>, pos: int, part: Seq<u8>)
    requires
        holds_at(s, pos, part),
    ensures
        holds_at(s + tail, pos, part),
{
    assert((s + tail).subrange(pos, pos + part.len()) =~= s.subrange(pos, pos + part.len()));
}

/// The first piece of a concatenation stands at its start.
pub proof fn lemma_holds_at_head(s: Seq<u8>, tail: Seq<u8>)
    ensures
        holds_at(s + tail, 0, s),
{
    assert((s + tail).subrange(0, s.len() as int) =~= s);
}

/// The last piece of a concatenation stands at its end.
pub proof fn lemma_holds_at_tail(s: Seq<u8>, tail: Seq<u8>)
    ensures
        holds_at(s + tail, s.len() as int, tail),
{
    assert((s + tail).subrange(s.len() as int, (s + tail).len() as int) =~= tail);
}

/// Writing a two-byte integer that was read gives its bytes.
pub proof fn lemma_put16(s: Seq<u8>, pos: int)
    requires
        0 <= pos,
        pos + 2 <= s.len(),
    ensures
        be16(get16(s, pos)) == s.subrange(pos, pos + 2),
{
    let x = s[pos] * 256 + s[pos + 1];
    assert(x / 256 == s[pos] && x % 256 == s[pos + 1]);
    assert(be16(get16(s, pos)) =~= s.subrange(pos, pos + 2));
}

/// Writing a four-byte or an eight-byte integer that was read gives the bytes that it was read from.
pub proof fn lemma_put32(s: Seq<u8>, pos: int)
    requires
        0 <= pos,
        pos + 4 <= s.len(),
    ensures
        be32(get32(s, pos)) == s.subrange(pos, pos + 4),
        pos + 8 <= s.len() ==> be64(get64(s, pos)) == s.subrange(pos, pos + 8),
{
    lemma_put16(s, pos);
    lemma_put16(s, pos + 2);
    let x = get16(s, pos) * 0x1_0000 + get16(s, pos + 2);
    assert(x / 0x1_0000 == get16(s, pos) && x % 0x1_0000 == get16(s, pos + 2));
    assert(be32(get32(s, pos)) =~= s.subrange(pos, pos + 2) + s.subrange(pos + 2, pos + 4));
    assert(s.subrange(pos, pos + 2) + s.subrange(pos + 2, pos + 4) =~= s.subrange(pos, pos + 4));
    if pos + 8 <= s.len() {
        lemma_put16(s, pos + 4);
        lemma_put16(s, pos + 6);
        let y = get16(s, pos + 4) * 0x1_0000 + get16(s, pos + 6);
        assert(y / 0x1_0000 == get16(s, pos + 4) && y % 0x1_0000 == get16(s, pos + 6));
        assert(be32(get32(s, pos + 4)) =~= s.subrange(pos + 4, pos + 6) + s.subrange(
            pos + 6,
            pos + 8,
        ));
        let z = get32(s, pos) * 0x1_0000_0000 + get32(s, pos + 4);
        assert(z / 0x1_0000_0000 == get32(s, pos) && z % 0x1_0000_0000 == get32(s, pos + 4));
        assert(be64(get64(s, pos)) =~= be32(get32(s, pos)) + be32(get32(s, pos + 4)));
        assert(be32(get32(s, pos)) + be32(get32(s, pos + 4)) =~= s.subrange(pos, pos + 8));
    }
}

/// Reading back a two-byte integer that was written gives the integer.
pub proof fn lemma_get16(s: Seq<u8>, pos: int, x: u16)
    requires
        holds_at(s, pos, be16(x)),
    ensures
        get16(s, pos) == x,
{
    let part = s.subrange(pos, pos + 2);
    assert(part[0] == s[pos] && part[1] == s[pos + 1]);
}

/// Reading back a four-byte integer that was written gives the integer.
pub proof fn lemma_get32(s: Seq<u8>, pos: int, x: u32)
    requires
        holds_at(s, pos, be32(x)),
    ensures
        get32(s, pos) == x,
{
    let hi = (x / 0x1_0000) as u16;
    let lo = (x % 0x1_0000) as u16;
    lemma_holds_at_concat(s, pos, be16(hi), be16(lo));
    lemma_get16(s, pos, hi);
    lemma_get16(s, pos + 2, lo);
}

/// Reading back an eight-byte integer that was written gives the integer.
pub proof fn lemma_get64(s: Seq<u8>, pos: int, x: u64)
    requires
        holds_at(s, pos, be64(x)),
    ensures
        get64(s, pos) == x,
{
    let hi = (x / 0x1_0000_0000) as u32;
    let lo = (x % 0x1_0000_0000) as u32;
    lemma_holds_at_concat(s, pos, be32(hi), be32(lo));
    lemma_get32(s, pos, hi);
    lemma_get32(s, pos + 4, lo);
}

/// Numbers are stored with the most significant byte first.
pub proof fn lemma_most_significant_first(x: u16, y: u32, z: u64)
    ensures
        be16(x).len() == 2,
        x == be16(x)[0] * 0x100 + be16(x)[1],
        be32(y).len() == 4,
        y == be32(y)[0] * 0x100_0000 + be32(y)[1] * 0x1_0000 + be32(y)[2] * 0x100 + be32(y)[3],
        be64(z).len() == 8,
        z == be64(z)[0] * 0x100_0000_0000_0000 + be64(z)[1] * 0x1_0000_0000_0000 + be64(z)[2]
            * 0x100_0000_0000 + be64(z)[3] * 0x1_0000_0000 + be64(z)[4] * 0x100_0000 + be64(z)[5]
            * 0x1_0000 + be64(z)[6] * 0x100 + be64(z)[7],
{
}

/// Numbers are read with the most significant byte first.
pub proof fn lemma_read_most_significant_first(s: Seq<u8>, pos: int)
    ensures
        get16(s, pos) == s[pos] * 0x100 + s[pos + 1],
        get32(s, pos) == s[pos] * 0x100_0000 + s[pos + 1] * 0x1_0000 + s[pos + 2] * 0x100 + s[pos
            + 3],
        get64(s, pos) == s[pos] * 0x100_0000_0000_0000 + s[pos + 1] * 0x1_0000_0000_0000 + s[pos
            + 2] * 0x100_0000_0000 + s[pos + 3] * 0x1_0000_0000 + s[pos + 4] * 0x100_0000 + s[pos
            + 5] * 0x1_0000 + s[pos + 6] * 0x100 + s[pos + 7],
{
}

/// A body between two four-byte integers.
#[verifier::opaque]
pub open spec fn framed(head: u32, body: Seq<u8>, tail: u32) -> Seq<u8> {
    be32(head) + body + be32(tail)
}

/// The parts of a framed body are read back.
pub proof fn lemma_framed(head: u32, body: Seq<u8>, tail: u32)
    ensures
        framed(head, body, tail).len() == body.len() + 8,
        get32(framed(head, body, tail), 0) == head,
        holds_at(framed(head, body, tail), 4, body),
        framed(head, body, tail).subrange(4, 4 + body.len() as int) == body,
        get32(framed(head, body, tail), 4 + body.len() as int) == tail,
{
    reveal(framed);
    let s = framed(head, body, tail);
    lemma_holds_at_head(be32(head) + body, be32(tail));
    lemma_holds_at_tail(be32(head) + body, be32(tail));
    lemma_holds_at_concat(s, 0, be32(head), body);
    lemma_get32(s, 0, head);
    lemma_get32(s, 4 + body.len() as int, tail);
}

/// Appends a two-byte integer.
pub fn put_u16(buf: &mut Vec<u8>, x: u16)
    ensures
        final(buf)@ == old(buf)@ + be16(x),
{
    buf.push((x / 256) as u8);
    buf.push((x % 256) as u8);
    assert(buf@ =~= old(buf)@ + be16(x));
}

/// Appends a four-byte integer.
pub fn put_u32(buf: &mut Vec<u8>, x: u32)
    ensures
        final(buf)@ == old(buf)@ + be32(x),
{
    put_u16(buf, (x / 0x1_0000) as u16);
    put_u16(buf, (x % 0x1_0000) as u16);
    assert(buf@ =~= old(buf)@ + be32(x));
}

/// Appends an eight-byte integer.
pub fn put_u64(buf: &mut Vec<u8>, x: u64)
    ensures
        final(buf)@ == old(buf)@ + be64(x),
{
    put_u32(buf, (x / 0x1_0000_0000) as u32);
    put_u32(buf, (x % 0x1_0000_0000) as u32);
    assert(buf@ =~= old(buf)@ + be64(x));
}

/// Appends a byte string.
pub fn put_slice(buf: &mut Vec<u8>, src: &[u8])
    ensures
        final(buf)@ == old(buf)@ + src@,
{
    buf.extend_from_slice(src);
    assert(buf@ =~= old(buf)@ + src@);
}

/// Reads the two-byte integer at `pos`.
pub fn read_u16(buf: &[u8], pos: usize) -> (x: u16)
    requires
        pos + 2 <= buf@.len(),
    ensures
        x == get16(buf@, pos as int),
{
    (buf[pos] as u16) * 256 + (buf[pos + 1] as u16)
}

/// Reads the four-byte integer at `pos`.
pub fn read_u32(buf: &[u8], pos: usize) -> (x: u32)
    requires
        pos + 4 <= buf@.len(),
    ensures
        x == get32(buf@, pos as int),
{
    assert(pos + 4 <= buf.len());
    (read_u16(buf, pos) as u32) * 0x1_0000 + (read_u16(buf, pos + 2) as u32)
}

/// Reads the eight-byte integer at `pos`.
pub fn read_u64(buf: &[u8], pos: usize) -> (x: u64)
    requires
        pos + 8 <= buf@.len(),
    ensures
        x == get64(buf@, pos as int),
{
    assert(pos + 8 <= buf.len());
    (read_u32(buf, pos) as u64) * 0x1_0000_0000 + (read_u32(buf, pos + 4) as u64)
}

} // verus!
