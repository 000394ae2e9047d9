//! Little-endian encoding of fixed-width integers.
use vstd::prelude::*;

verus! {

pub open spec fn le_u16(x: u16) -> Seq<u8> {
    seq![(x & 0xff) as u8, ((x >> 8) & 0xff) as u8]
}

pub open spec fn le_u32(x: u32) -> Seq<u8> {
    seq![(x & 0xff) as u8, ((x >> 8) & 0xff) as u8, ((x >> 16) & 0xff) as u8, ((x >> 24) & 0xff) as u8]
}

pub open spec fn le_u64(x: u64) -> Seq<u8> {
    seq![
        (x & 0xff) as u8,
        ((x >> 8) & 0xff) as u8,
        ((x >> 16) & 0xff) as u8,
        ((x >> 24) & 0xff) as u8,
        ((x >> 32) & 0xff) as u8,
        ((x >> 40) & 0xff) as u8,
        ((x >> 48) & 0xff) as u8,
        ((x >> 56) & 0xff) as u8,
    ]
}

/// The `u16` stored little-endian at `b[i..i + 2]`.
pub open spec fn get_u16(b: Seq<u8>, i: int) -> u16 {
    (b[i] as u16) | ((b[i + 1] as u16) << 8u16)
}

/// The `u32` stored little-endian at `b[i..i + 4]`.
pub open spec fn get_u32(b: Seq<u8>, i: int) -> u32 {
    (b[i] as u32) | ((b[i + 1] as u32) << 8u32) | ((b[i + 2] as u32) << 16u32) | ((b[i + 3] as u32)
        << 24u32)
}

/// The `u64` stored little-endian at `b[i..i + 8]`.
pub open spec fn get_u64(b: Seq<u8>, i: int) -> u64 {
    (b[i] as u64) | ((b[i + 1] as u64) << 8u64) | ((b[i + 2] as u64) << 16u64) | ((b[i + 3] as u64)
        << 24u64) | ((b[i + 4] as u64) << 32u64) | ((b[i + 5] as u64) << 40u64) | ((b[i + 6] as u64)
        << 48u64) | ((b[i + 7] as u64) << 56u64)
}

/// Decoding what `le_u16` encoded gives the value back.
pub proof fn lemma_u16_roundtrip(x: u16, b: Seq<u8>, i: int)
    requires
        0 <= i,
        i + 2 <= b.len(),
        b.subrange(i, i + 2) == le_u16(x),
    ensures
        get_u16(b, i) == x,
{
    let b0 = b[i];
    let b1 = b[i + 1];
    assert(b0 == b.subrange(i, i + 2)[0]);
    assert(b1 == b.subrange(i, i + 2)[1]);
    assert(b0 == (x & 0xff) as u8 && b1 == ((x >> 8) & 0xff) as u8 ==> (b0 as u16) | ((b1 as u16)
        << 8u16) == x) by (bit_vector);
}

/// Decoding what `le_u32` encoded gives the value back.
pub proof fn lemma_u32_roundtrip(x: u32, b: Seq<u8>, i: int)
    requires
        0 <= i,
        i + 4 <= b.len(),
        b.subrange(i, i + 4) == le_u32(x),
    ensures
        get_u32(b, i) == x,
{
    let b0 = b[i];
    let b1 = b[i + 1];
    let b2 = b[i + 2];
    let b3 = b[i + 3];
    assert(b0 == b.subrange(i, i + 4)[0]);
    assert(b1 == b.subrange(i, i + 4)[1]);
    assert(b2 == b.subrange(i, i + 4)[2]);
    assert(b3 == b.subrange(i, i + 4)[3]);
    assert(b0 == (x & 0xff) as u8 && b1 == ((x >> 8) & 0xff) as u8 && b2 == ((x >> 16) & 0xff) as u8
        && b3 == ((x >> 24) & 0xff) as u8 ==> (b0 as u32) | ((b1 as u32) << 8u32) | ((b2 as u32)
        << 16u32) | ((b3 as u32) << 24u32) == x) by (bit_vector);
}

/// Decoding what `le_u64` encoded gives the value back.
pub proof fn lemma_u64_roundtrip(x: u64, b: Seq<u8>, i: int)
    requires
        0 <= i,
        i + 8 <= b.len(),
        b.subrange(i, i + 8) == le_u64(x),
    ensures
        get_u64(b, i) == x,
{
    let s = b.subrange(i, i + 8);
    let b0 = b[i];
    let b1 = b[i + 1];
    let b2 = b[i + 2];
    let b3 = b[i + 3];
    let b4 = b[i + 4];
    let b5 = b[i + 5];
    let b6 = b[i + 6];
    let b7 = b[i + 7];
    assert(b0 == s[0] && b1 == s[1] && b2 == s[2] && b3 == s[3]);
    assert(b4 == s[4] && b5 == s[5] && b6 == s[6] && b7 == s[7]);
    assert(b0 == (x & 0xff) as u8 && b1 == ((x >> 8) & 0xff) as u8 && b2 == ((x >> 16) & 0xff) as u8
        && b3 == ((x >> 24) & 0xff) as u8 && b4 == ((x >> 32) & 0xff) as u8 && b5 == ((x >> 40)
        & 0xff) as u8 && b6 == ((x >> 48) & 0xff) as u8 && b7 == ((x >> 56) & 0xff) as u8 ==> (b0
        as u64) | ((b1 as u64) << 8u64) | ((b2 as u64) << 16u64) | ((b3 as u64) << 24u64) | ((b4
        as u64) << 32u64) | ((b5 as u64) << 40u64) | ((b6 as u64) << 48u64) | ((b7 as u64)
        << 56u64) == x) by (bit_vector);
}

pub fn put_u16(v: &mut Vec<u8>, x: u16)
    ensures
        final(v)@ == old(v)@ + le_u16(x),
{
    v.push((x & 0xff) as u8);
    v.push(((x >> 8) & 0xff) as u8);
    assert(v@ =~= old(v)@ + le_u16(x));
}

pub fn put_u32(v: &mut Vec<u8>, x: u32)
    ensures
        final(v)@ == old(v)@ + le_u32(x),
{
    v.push((x & 0xff) as u8);
    v.push(((x >> 8) & 0xff) as u8);
    v.push(((x >> 16) & 0xff) as u8);
    v.push(((x >> 24) & 0xff) as u8);
    assert(v@ =~= old(v)@ + le_u32(x));
}

pub fn put_u64(v: &mut Vec<u8>, x: u64)
    ensures
        final(v)@ == old(v)@ + le_u64(x),
{
    v.push((x & 0xff) as u8);
    v.push(((x >> 8) & 0xff) as u8);
    v.push(((x >> 16) & 0xff) as u8);
    v.push(((x >> 24) & 0xff) as u8);
    v.push(((x >> 32) & 0xff) as u8);
    v.push(((x >> 40) & 0xff) as u8);
    v.push(((x >> 48) & 0xff) as u8);
    v.push(((x >> 56) & 0xff) as u8);
    assert(v@ =~= old(v)@ + le_u64(x));
}

pub fn read_u16(b: &[u8], i: usize) -> (r: u16)
    requires
        i + 2 <= b@.len(),
    ensures
        r == get_u16(b@, i as int),
{
    (b[i] as u16) | ((b[i + 1] as u16) << 8u16)
}

pub fn read_u32(b: &[u8], i: usize) -> (r: u32)
    requires
        i + 4 <= b@.len(),
    ensures
        r == get_u32(b@, i as int),
{
    (b[i] as u32) | ((b[i + 1] as u32) << 8u32) | ((b[i + 2] as u32) << 16u32) | ((b[i + 3] as u32)
        << 24u32)
}

pub fn read_u64(b: &[u8], i: usize) -> (r: u64)
    requires
        i + 8 <= b@.len(),
    ensures
        r == get_u64(b@, i as int),
{
    (b[i] as u64) | ((b[i + 1] as u64) << 8u64) | ((b[i + 2] as u64) << 16u64) | ((b[i + 3] as u64)
        << 24u64) | ((b[i + 4] as u64) << 32u64) | ((b[i + 5] as u64) << 40u64) | ((b[i + 6] as u64)
        << 48u64) | ((b[i + 7] as u64) << 56u64)
}

} // verus!
