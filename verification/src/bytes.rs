//! Bounds-checked reading of numbers from a byte buffer.

use vstd::prelude::*;

verus! {

/// The 16-bit number whose bytes, most significant first, are at `at`.
pub open spec fn be_u16(bytes: Seq<u8>, at: int) -> nat {
    (bytes[at] * 0x100 + bytes[at + 1]) as nat
}

/// The 32-bit number whose bytes, least significant first, are at `at`.
pub open spec fn le_u32(bytes: Seq<u8>, at: int) -> nat {
    (bytes[at] + bytes[at + 1] * 0x100 + bytes[at + 2] * 0x1_0000 + bytes[at + 3] * 0x100_0000) as nat
}

/// The unsigned 64-bit number whose bytes, least significant first, are at
/// `at`.
pub open spec fn le_u64(bytes: Seq<u8>, at: int) -> nat {
    le_u32(bytes, at) + le_u32(bytes, at + 4) * 0x1_0000_0000
}

/// The signed 64-bit number, in two's complement, whose bytes, least
/// significant first, are at `at`.
pub open spec fn le_i64(bytes: Seq<u8>, at: int) -> int {
    let unsigned = le_u64(bytes, at);
    if unsigned < 0x8000_0000_0000_0000 {
        unsigned as int
    } else {
        unsigned - 0x1_0000_0000_0000_0000
    }
}

/// Reads a big-endian 16-bit number.
pub fn read_be_u16(bytes: &[u8], at: usize) -> (value: u16)
    requires
        at + 2 <= bytes.len(),
    ensures
        value == be_u16(bytes@, at as int),
{
    bytes[at] as u16 * 0x100 + bytes[at + 1] as u16
}

/// Reads a little-endian 32-bit number.
pub fn read_le_u32(bytes: &[u8], at: usize) -> (value: u32)
    requires
        at + 4 <= bytes.len(),
    ensures
        value == le_u32(bytes@, at as int),
{
    bytes[at] as u32 + bytes[at + 1] as u32 * 0x100 + bytes[at + 2] as u32 * 0x1_0000 + bytes[at
        + 3] as u32 * 0x100_0000
}

/// Reads a little-endian signed 64-bit number.
pub fn read_le_i64(bytes: &[u8], at: usize) -> (value: i64)
    requires
        at + 8 <= bytes.len(),
    ensures
        value == le_i64(bytes@, at as int),
{
    let low: u64 = read_le_u32(bytes, at) as u64;
    let high: u64 = read_le_u32(bytes, at + 4) as u64;
    let unsigned: u64 = low + high * 0x1_0000_0000;
    if unsigned < 0x8000_0000_0000_0000 {
        unsigned as i64
    } else {
        ((unsigned - 0x8000_0000_0000_0000) as i64) + (-0x8000_0000_0000_0000i64)
    }
}

} // verus!
