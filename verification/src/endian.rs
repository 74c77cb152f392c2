//! Little-endian integers in a byte buffer.

use vstd::prelude::*;
use byteorder::{ByteOrder, LittleEndian};

verus! {

/// The 32-bit number that the four bytes from `at` on spell, lowest byte
/// first.
pub open spec fn le_u32(bytes: Seq<u8>, at: int) -> u32 {
    (bytes[at] as int + 0x100 * (bytes[at + 1] as int) + 0x1_0000 * (bytes[at + 2] as int)
        + 0x100_0000 * (bytes[at + 3] as int)) as u32
}

/// The 64-bit number that the eight bytes from `at` on spell, lowest byte
/// first.
pub open spec fn le_u64(bytes: Seq<u8>, at: int) -> u64 {
    (le_u32(bytes, at) as int + 0x1_0000_0000 * (le_u32(bytes, at + 4) as int)) as u64
}

/// `byteorder::LittleEndian::read_u32` on the bytes from `at` on: the number
/// that the first four of them spell, lowest byte first. The outside
/// function panics on fewer than four bytes, which `requires` leaves out.
#[verifier::external_body]
pub(crate) fn read_u32_le(bytes: &[u8], at: usize) -> (r: u32)
    requires
        at + 4 <= bytes.len(),
    ensures
        r == le_u32(bytes@, at as int),
{
    LittleEndian::read_u32(&bytes[at..])
}

/// `byteorder::LittleEndian::read_u64` on the bytes from `at` on: the number
/// that the first eight of them spell, lowest byte first. The outside
/// function panics on fewer than eight bytes, which `requires` leaves out.
#[verifier::external_body]
pub(crate) fn read_u64_le(bytes: &[u8], at: usize) -> (r: u64)
    requires
        at + 8 <= bytes.len(),
    ensures
        r == le_u64(bytes@, at as int),
{
    LittleEndian::read_u64(&bytes[at..])
}

} // verus!
