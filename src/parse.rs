//! Little-endian integers read out of byte buffers.

use vstd::prelude::*;

verus! {

/// The little-endian 16-bit value of the two bytes at `off`.
pub open spec fn le16(b: Seq<u8>, off: int) -> int {
    b[off] as int + 256 * (b[off + 1] as int)
}

/// The little-endian 32-bit value of the four bytes at `off`.
pub open spec fn le32(b: Seq<u8>, off: int) -> int {
    le16(b, off) + 65536 * le16(b, off + 2)
}

pub fn read_u16(data: &[u8], offset: usize) -> (r: u16)
    requires
        offset + 2 <= data.len(),
    ensures
        r as int == le16(data@, offset as int),
{
    let lo = data[offset];
    let hi = data[offset + 1];
    assert((lo as u16) | ((hi as u16) << 8u16) == lo as u16 + 256 * (hi as u16)) by (bit_vector);
    (lo as u16) | ((hi as u16) << 8u16)
}

pub fn read_u32(data: &[u8], offset: usize) -> (r: u32)
    requires
        offset + 4 <= data.len(),
    ensures
        r as int == le32(data@, offset as int),
{
    let lo = read_u16(data, offset) as u32;
    let hi = read_u16(data, offset + 2) as u32;
    assert(lo < 65536 && hi < 65536 ==> lo | (hi << 16u32) == lo + 65536 * hi) by (bit_vector);
    lo | (hi << 16u32)
}

} // verus!
