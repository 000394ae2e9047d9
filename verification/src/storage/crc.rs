//! CRC-32 (IEEE 802.3, reflected, polynomial 0xEDB88320).
use vstd::prelude::*;

verus! {

pub const CRC32_POLY: u32 = 0xEDB88320;

/// One bit of the reflected shift register.
pub open spec fn crc_shift(c: u32) -> u32 {
    if c & 1 == 1 {
        (c >> 1u32) ^ CRC32_POLY
    } else {
        c >> 1u32
    }
}

/// `n` bits of the shift register.
pub open spec fn crc_shift_n(c: u32, n: nat) -> u32
    decreases n,
{
    if n == 0 {
        c
    } else {
        crc_shift(crc_shift_n(c, (n - 1) as nat))
    }
}

/// The register after absorbing one byte.
pub open spec fn crc_absorb(c: u32, b: u8) -> u32 {
    crc_shift_n(c ^ (b as u32), 8)
}

/// The register after absorbing `bytes`, starting from all ones.
pub open spec fn crc_register(bytes: Seq<u8>) -> u32
    decreases bytes.len(),
{
    if bytes.len() == 0 {
        0xFFFF_FFFFu32
    } else {
        crc_absorb(crc_register(bytes.drop_last()), bytes.last())
    }
}

/// The CRC-32 checksum of `bytes`.
pub open spec fn crc32_of(bytes: Seq<u8>) -> u32 {
    crc_register(bytes) ^ 0xFFFF_FFFFu32
}

fn absorb(c: u32, b: u8) -> (r: u32)
    ensures
        r == crc_absorb(c, b),
{
    let mut x = c ^ (b as u32);
    let mut k: u32 = 0;
    while k < 8
        invariant
            k <= 8,
            x == crc_shift_n(c ^ (b as u32), k as nat),
        decreases 8 - k,
    {
        x = if x & 1 == 1 {
            (x >> 1u32) ^ CRC32_POLY
        } else {
            x >> 1u32
        };
        k = k + 1;
    }
    x
}

/// Computes the CRC-32 checksum of `data`.
pub fn crc32(data: &[u8]) -> (r: u32)
    ensures
        r == crc32_of(data@),
{
    let mut c: u32 = 0xFFFF_FFFF;
    let mut i: usize = 0;
    while i < data.len()
        invariant
            i <= data@.len(),
            c == crc_register(data@.subrange(0, i as int)),
        decreases data@.len() - i,
    {
        assert(data@.subrange(0, i + 1).drop_last() =~= data@.subrange(0, i as int));
        c = absorb(c, data[i]);
        i = i + 1;
    }
    assert(data@.subrange(0, data@.len() as int) =~= data@);
    c ^ 0xFFFF_FFFF
}

} // verus!
