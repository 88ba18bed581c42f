//! Big-endian encoding of the fixed-width integers that rows and hint
//! entries carry, with the facts that make decoding undo encoding.

use vstd::prelude::*;

verus! {

/// The integer that four bytes spell, most significant byte first.
pub open spec fn u32_from_be(b0: u8, b1: u8, b2: u8, b3: u8) -> u32 {
    ((b0 as u32) << 24u32) | ((b1 as u32) << 16u32) | ((b2 as u32) << 8u32) | (b3 as u32)
}

/// The integer that eight bytes spell, most significant byte first.
pub open spec fn u64_from_be(
    b0: u8,
    b1: u8,
    b2: u8,
    b3: u8,
    b4: u8,
    b5: u8,
    b6: u8,
    b7: u8,
) -> u64 {
    ((b0 as u64) << 56u64) | ((b1 as u64) << 48u64) | ((b2 as u64) << 40u64) | ((b3 as u64)
        << 32u64) | ((b4 as u64) << 24u64) | ((b5 as u64) << 16u64) | ((b6 as u64) << 8u64) | (
    b7 as u64)
}

/// The four bytes of `v`, most significant first.
pub open spec fn be_u32(v: u32) -> Seq<u8> {
    seq![(v >> 24u32) as u8, (v >> 16u32) as u8, (v >> 8u32) as u8, v as u8]
}

/// The eight bytes of `v`, most significant first.
pub open spec fn be_u64(v: u64) -> Seq<u8> {
    seq![
        (v >> 56u64) as u8,
        (v >> 48u64) as u8,
        (v >> 40u64) as u8,
        (v >> 32u64) as u8,
        (v >> 24u64) as u8,
        (v >> 16u64) as u8,
        (v >> 8u64) as u8,
        v as u8,
    ]
}

/// The sixteen bytes of `v`, most significant first.
pub open spec fn be_u128(v: u128) -> Seq<u8> {
    be_u64((v >> 64u128) as u64) + be_u64(v as u64)
}

/// The integer that the first four bytes of `s` spell, most significant first.
pub open spec fn u32_of_be(s: Seq<u8>) -> u32 {
    u32_from_be(s[0], s[1], s[2], s[3])
}

/// The integer that the first eight bytes of `s` spell, most significant first.
pub open spec fn u64_of_be(s: Seq<u8>) -> u64 {
    u64_from_be(s[0], s[1], s[2], s[3], s[4], s[5], s[6], s[7])
}

/// The integer that the first sixteen bytes of `s` spell, most significant first.
pub open spec fn u128_of_be(s: Seq<u8>) -> u128 {
    ((u64_of_be(s) as u128) << 64u128) | (u64_of_be(s.subrange(8, 16)) as u128)
}

proof fn lemma_u32_bytes(v: u32)
    ensures
        u32_from_be((v >> 24u32) as u8, (v >> 16u32) as u8, (v >> 8u32) as u8, v as u8) == v,
{
    assert(u32_from_be((v >> 24u32) as u8, (v >> 16u32) as u8, (v >> 8u32) as u8, v as u8) == v)
        by (bit_vector);
}

proof fn lemma_u64_bytes(v: u64)
    ensures
        u64_from_be(
            (v >> 56u64) as u8,
            (v >> 48u64) as u8,
            (v >> 40u64) as u8,
            (v >> 32u64) as u8,
            (v >> 24u64) as u8,
            (v >> 16u64) as u8,
            (v >> 8u64) as u8,
            v as u8,
        ) == v,
{
    assert(u64_from_be(
        (v >> 56u64) as u8,
        (v >> 48u64) as u8,
        (v >> 40u64) as u8,
        (v >> 32u64) as u8,
        (v >> 24u64) as u8,
        (v >> 16u64) as u8,
        (v >> 8u64) as u8,
        v as u8,
    ) == v) by (bit_vector);
}

proof fn lemma_u128_halves(v: u128)
    ensures
        ((((v >> 64u128) as u64) as u128) << 64u128) | ((v as u64) as u128) == v,
{
    assert(((((v >> 64u128) as u64) as u128) << 64u128) | ((v as u64) as u128) == v)
        by (bit_vector);
}

/// Decoding four big-endian bytes gives back the integer that was encoded.
pub proof fn lemma_be_u32_roundtrip(v: u32, rest: Seq<u8>)
    ensures
        be_u32(v).len() == 4,
        u32_of_be(be_u32(v) + rest) == v,
{
    lemma_u32_bytes(v);
    let s = be_u32(v) + rest;
    assert(s[0] == be_u32(v)[0] && s[1] == be_u32(v)[1] && s[2] == be_u32(v)[2] && s[3]
        == be_u32(v)[3]);
}

/// Decoding eight big-endian bytes gives back the integer that was encoded.
pub proof fn lemma_be_u64_roundtrip(v: u64, rest: Seq<u8>)
    ensures
        be_u64(v).len() == 8,
        u64_of_be(be_u64(v) + rest) == v,
{
    lemma_u64_bytes(v);
    let e = be_u64(v);
    let s = e + rest;
    assert(s[0] == e[0] && s[1] == e[1] && s[2] == e[2] && s[3] == e[3]);
    assert(s[4] == e[4] && s[5] == e[5] && s[6] == e[6] && s[7] == e[7]);
}

/// Decoding sixteen big-endian bytes gives back the integer that was encoded.
pub proof fn lemma_be_u128_roundtrip(v: u128, rest: Seq<u8>)
    ensures
        be_u128(v).len() == 16,
        u128_of_be(be_u128(v) + rest) == v,
{
    let hi = (v >> 64u128) as u64;
    let lo = v as u64;
    let s = be_u128(v) + rest;
    lemma_be_u64_roundtrip(hi, be_u64(lo) + rest);
    assert(s == be_u64(hi) + (be_u64(lo) + rest));
    lemma_be_u64_roundtrip(lo, rest);
    assert(s.subrange(8, 16) == be_u64(lo) + Seq::<u8>::empty());
    lemma_be_u64_roundtrip(lo, Seq::<u8>::empty());
    lemma_u128_halves(v);
}

/// Appends the four big-endian bytes of `v` to `buf`.
pub fn put_u32(buf: &mut Vec<u8>, v: u32)
    ensures
        final(buf)@ == old(buf)@ + be_u32(v),
{
    buf.push((v >> 24u32) as u8);
    buf.push((v >> 16u32) as u8);
    buf.push((v >> 8u32) as u8);
    buf.push(v as u8);
}

/// Appends the eight big-endian bytes of `v` to `buf`.
pub fn put_u64(buf: &mut Vec<u8>, v: u64)
    ensures
        final(buf)@ == old(buf)@ + be_u64(v),
{
    buf.push((v >> 56u64) as u8);
    buf.push((v >> 48u64) as u8);
    buf.push((v >> 40u64) as u8);
    buf.push((v >> 32u64) as u8);
    buf.push((v >> 24u64) as u8);
    buf.push((v >> 16u64) as u8);
    buf.push((v >> 8u64) as u8);
    buf.push(v as u8);
}

/// Appends the sixteen big-endian bytes of `v` to `buf`.
pub fn put_u128(buf: &mut Vec<u8>, v: u128)
    ensures
        final(buf)@ == old(buf)@ + be_u128(v),
{
    let ghost start = buf@;
    put_u64(buf, (v >> 64u128) as u64);
    put_u64(buf, v as u64);
    assert(buf@ == start + be_u128(v));
}

/// Appends the bytes of `data` to `buf`.
pub fn put_slice(buf: &mut Vec<u8>, data: &[u8])
    ensures
        final(buf)@ == old(buf)@ + data@,
{
    let ghost start = buf@;
    let mut i: usize = 0;
    while i < data.len()
        invariant
            i <= data@.len(),
            buf@ == start + data@.subrange(0, i as int),
        decreases data@.len() - i,
    {
        buf.push(data[i]);
        i = i + 1;
        assert(data@.subrange(0, i as int) == data@.subrange(0, i - 1) + seq![data@[i - 1]]);
    }
    assert(data@.subrange(0, data@.len() as int) == data@);
}

/// The integer that `buf[pos..pos + 4]` spells, most significant byte first.
pub fn get_u32(buf: &[u8], pos: usize) -> (v: u32)
    requires
        pos + 4 <= buf@.len(),
    ensures
        v == u32_of_be(buf@.subrange(pos as int, buf@.len() as int)),
{
    ((buf[pos] as u32) << 24u32) | ((buf[pos + 1] as u32) << 16u32) | ((buf[pos + 2] as u32)
        << 8u32) | (buf[pos + 3] as u32)
}

/// The integer that `buf[pos..pos + 8]` spells, most significant byte first.
pub fn get_u64(buf: &[u8], pos: usize) -> (v: u64)
    requires
        pos + 8 <= buf@.len(),
    ensures
        v == u64_of_be(buf@.subrange(pos as int, buf@.len() as int)),
{
    ((buf[pos] as u64) << 56u64) | ((buf[pos + 1] as u64) << 48u64) | ((buf[pos + 2] as u64)
        << 40u64) | ((buf[pos + 3] as u64) << 32u64) | ((buf[pos + 4] as u64) << 24u64) | ((buf[pos
        + 5] as u64) << 16u64) | ((buf[pos + 6] as u64) << 8u64) | (buf[pos + 7] as u64)
}

/// The integer that `buf[pos..pos + 16]` spells, most significant byte first.
pub fn get_u128(buf: &[u8], pos: usize) -> (v: u128)
    requires
        pos + 16 <= buf@.len(),
    ensures
        v == u128_of_be(buf@.subrange(pos as int, buf@.len() as int)),
{
    let len = buf.len();
    assert(pos + 16 <= len);
    let hi = get_u64(buf, pos);
    let lo = get_u64(buf, pos + 8);
    let ghost s = buf@.subrange(pos as int, buf@.len() as int);
    assert(s.subrange(8, 16).subrange(0, 8) == buf@.subrange(pos + 8, buf@.len() as int).subrange(
        0,
        8,
    ));
    assert(forall|i: int| 0 <= i < 8 ==> s.subrange(8, 16)[i] == buf@.subrange(
        pos + 8,
        buf@.len() as int,
    )[i]);
    ((hi as u128) << 64u128) | (lo as u128)
}

} // verus!
