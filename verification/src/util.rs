//! Little-endian integers in a byte buffer.

use vstd::prelude::*;

verus! {

/// The 16-bit value stored least significant byte first at `at`.
pub open spec fn le_u16(s: Seq<u8>, at: int) -> int {
    s[at] as int + 0x100 * (s[at + 1] as int)
}

/// The 32-bit value stored least significant byte first at `at`.
pub open spec fn le_u32(s: Seq<u8>, at: int) -> int {
    le_u16(s, at) + 0x1_0000 * le_u16(s, at + 2)
}

/// The 64-bit value stored least significant byte first at `at`.
pub open spec fn le_u64(s: Seq<u8>, at: int) -> int {
    le_u32(s, at) + 0x1_0000_0000 * le_u32(s, at + 4)
}

/// Reads the 16-bit little-endian value at `at`.
pub fn read_u16(buf: &[u8], at: usize) -> (r: u16)
    requires
        at + 2 <= buf.len(),
    ensures
        r == le_u16(buf@, at as int),
{
    let lo: u16 = buf[at] as u16;
    let hi: u16 = buf[at + 1] as u16;
    lo + 0x100 * hi
}

/// Reads the 32-bit little-endian value at `at`.
pub fn read_u32(buf: &[u8], at: usize) -> (r: u32)
    requires
        at + 4 <= buf.len(),
    ensures
        r == le_u32(buf@, at as int),
{
    let lo: u32 = read_u16(buf, at) as u32;
    let hi: u32 = read_u16(buf, at + 2) as u32;
    lo + 0x1_0000 * hi
}

/// Reads the 64-bit little-endian value at `at`.
pub fn read_u64(buf: &[u8], at: usize) -> (r: u64)
    requires
        at + 8 <= buf.len(),
    ensures
        r == le_u64(buf@, at as int),
{
    let lo: u64 = read_u32(buf, at) as u64;
    let hi: u64 = read_u32(buf, at + 4) as u64;
    lo + 0x1_0000_0000 * hi
}

} // verus!
