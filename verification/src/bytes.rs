//! Reading fixed-width little-endian fields out of a byte buffer.

use vstd::prelude::*;

verus! {

/// The unsigned 32-bit value whose little-endian encoding is the four bytes
/// of `bytes` that start at `pos`.
pub open spec fn u32_le_at(bytes: Seq<u8>, pos: int) -> int
    recommends
        0 <= pos,
        pos + 4 <= bytes.len(),
{
    bytes[pos] as int + 0x100 * (bytes[pos + 1] as int) + 0x1_0000 * (bytes[pos + 2] as int)
        + 0x100_0000 * (bytes[pos + 3] as int)
}

/// Reads the little-endian `u32` at `pos`.
pub fn read_u32_le(bytes: &[u8], pos: usize) -> (value: u32)
    requires
        pos + 4 <= bytes.len(),
    ensures
        value as int == u32_le_at(bytes@, pos as int),
{
    let b0: u32 = bytes[pos] as u32;
    let b1: u32 = bytes[pos + 1] as u32;
    let b2: u32 = bytes[pos + 2] as u32;
    let b3: u32 = bytes[pos + 3] as u32;
    b0 + 0x100 * b1 + 0x1_0000 * b2 + 0x100_0000 * b3
}

} // verus!
