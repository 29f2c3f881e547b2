//! Little-endian field decoding, stated over byte sequences.

use vstd::prelude::*;

verus! {

/// The unsigned value of the two bytes at `i`, least significant first.
pub open spec fn le_u16(s: Seq<u8>, i: int) -> int {
    s[i] as int + 256 * (s[i + 1] as int)
}

/// The unsigned value of the four bytes at `i`, least significant first.
pub open spec fn le_u32(s: Seq<u8>, i: int) -> int {
    s[i] as int + 256 * (s[i + 1] as int) + 65536 * (s[i + 2] as int) + 16777216 * (
    s[i + 3] as int)
}

/// Two's-complement reading of an 8-bit pattern.
pub open spec fn signed8(u: int) -> int {
    if u >= 128 {
        u - 256
    } else {
        u
    }
}

/// Two's-complement reading of a 16-bit pattern.
pub open spec fn signed16(u: int) -> int {
    if u >= 32768 {
        u - 65536
    } else {
        u
    }
}

/// Two's-complement reading of a 32-bit pattern.
pub open spec fn signed32(u: int) -> int {
    if u >= 2147483648 {
        u - 4294967296
    } else {
        u
    }
}

/// The signed 16-bit little-endian value at `i`.
pub open spec fn le_i16(s: Seq<u8>, i: int) -> int {
    signed16(le_u16(s, i))
}

/// The signed 32-bit little-endian value at `i`.
pub open spec fn le_i32(s: Seq<u8>, i: int) -> int {
    signed32(le_u32(s, i))
}

/// Both frame formats open with the sync word 0xCAFE, stored little-endian:
/// the byte 0xFE followed by 0xCA.
pub open spec fn sync_at(s: Seq<u8>, i: int) -> bool {
    0 <= i && i + 1 < s.len() && s[i] == 0xFEu8 && s[i + 1] == 0xCAu8
}

/// Decodes the two bytes at `pos` as an unsigned little-endian integer.
pub fn read_u16_le(buf: &[u8], pos: usize) -> (v: u16)
    requires
        pos + 1 < buf@.len(),
    ensures
        v == le_u16(buf@, pos as int),
{
    buf[pos] as u16 + 256 * (buf[pos + 1] as u16)
}

/// Decodes the four bytes at `pos` as an unsigned little-endian integer.
pub fn read_u32_le(buf: &[u8], pos: usize) -> (v: u32)
    requires
        pos + 3 < buf@.len(),
    ensures
        v == le_u32(buf@, pos as int),
{
    buf[pos] as u32 + 256 * (buf[pos + 1] as u32) + 65536 * (buf[pos + 2] as u32) + 16777216 * (
    buf[pos + 3] as u32)
}

/// Reinterprets a byte as a two's-complement 8-bit integer.
pub fn to_i8(b: u8) -> (v: i8)
    ensures
        v == signed8(b as int),
{
    if b < 128 {
        b as i8
    } else {
        (b as i16 - 256) as i8
    }
}

/// Reinterprets a 16-bit pattern as a two's-complement integer.
pub fn to_i16(u: u16) -> (v: i16)
    ensures
        v == signed16(u as int),
{
    if u < 32768 {
        u as i16
    } else {
        (u as i32 - 65536) as i16
    }
}

/// Reinterprets a 32-bit pattern as a two's-complement integer.
pub fn to_i32(u: u32) -> (v: i32)
    ensures
        v == signed32(u as int),
{
    if u < 2147483648 {
        u as i32
    } else {
        (u as i64 - 4294967296) as i32
    }
}

} // verus!
