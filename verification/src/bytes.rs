//! Little-endian integer readers over byte buffers.
//!
//! Voice packets are flat byte strings; every multi-byte field in them is
//! stored least-significant byte first.  The spec functions here give the
//! mathematical value of such a field, and the executable readers are proved
//! to return exactly that value.

use vstd::prelude::*;

verus! {

/// Value of the 16-bit little-endian integer at byte offset `i` of `b`.
pub open spec fn le16_at(b: Seq<u8>, i: int) -> u16 {
    (b[i] + b[i + 1] * 0x100) as u16
}

/// Value of the 32-bit little-endian integer at byte offset `i` of `b`.
pub open spec fn le32_at(b: Seq<u8>, i: int) -> u32 {
    (b[i] + b[i + 1] * 0x100 + b[i + 2] * 0x1_0000 + b[i + 3] * 0x100_0000) as u32
}

/// Value of the 64-bit little-endian integer at byte offset `i` of `b`.
pub open spec fn le64_at(b: Seq<u8>, i: int) -> u64 {
    (le32_at(b, i) + le32_at(b, i + 4) * 0x1_0000_0000) as u64
}

/// Reads the 16-bit little-endian integer at byte offset `pos`.
pub fn read_u16_le(b: &Vec<u8>, pos: usize) -> (r: u16)
    requires
        pos + 2 <= b.len(),
    ensures
        r == le16_at(b@, pos as int),
{
    let lo = b[pos];
    let hi = b[pos + 1];
    lo as u16 + hi as u16 * 0x100
}

/// Reads the 32-bit little-endian integer at byte offset `pos`.
pub fn read_u32_le(b: &Vec<u8>, pos: usize) -> (r: u32)
    requires
        pos + 4 <= b.len(),
    ensures
        r == le32_at(b@, pos as int),
{
    let b0 = b[pos];
    let b1 = b[pos + 1];
    let b2 = b[pos + 2];
    let b3 = b[pos + 3];
    b0 as u32 + b1 as u32 * 0x100 + b2 as u32 * 0x1_0000 + b3 as u32 * 0x100_0000
}

/// Reads the 64-bit little-endian integer at byte offset `pos`.
pub fn read_u64_le(b: &Vec<u8>, pos: usize) -> (r: u64)
    requires
        pos + 8 <= b.len(),
    ensures
        r == le64_at(b@, pos as int),
{
    let lo = read_u32_le(b, pos);
    let hi = read_u32_le(b, pos + 4);
    lo as u64 + hi as u64 * 0x1_0000_0000
}

} // verus!
