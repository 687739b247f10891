//! Little-endian numbers in bytes.

use vstd::prelude::*;

verus! {

/// The little-endian 16-bit number at a position.
pub open spec fn word_at(bytes: Seq<u8>, at: int) -> u16 {
    (bytes[at] + 0x100 * bytes[at + 1]) as u16
}

/// The little-endian 32-bit number at a position.
pub open spec fn long_at(bytes: Seq<u8>, at: int) -> u32 {
    (bytes[at] + 0x100 * bytes[at + 1] + 0x1_0000 * bytes[at + 2] + 0x100_0000 * bytes[at
        + 3]) as u32
}

/// The little-endian 16-bit number at a position.
pub fn u16le(bytes: &[u8], at: usize) -> (value: u16)
    requires
        at + 1 < bytes@.len(),
    ensures
        value == word_at(bytes@, at as int),
{
    bytes[at] as u16 + 0x100 * bytes[at + 1] as u16
}

/// The little-endian 32-bit number at a position.
pub fn u32le(bytes: &[u8], at: usize) -> (value: u32)
    requires
        at + 3 < bytes@.len(),
    ensures
        value == long_at(bytes@, at as int),
{
    bytes[at] as u32 + 0x100 * bytes[at + 1] as u32 + 0x1_0000 * bytes[at + 2] as u32 + 0x100_0000
        * bytes[at + 3] as u32
}

} // verus!
