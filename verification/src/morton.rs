//! De-interleaving of Morton codes as Potree v2 stores them: three
//! coordinates share one code, bit `k` of the first at position `3k`, of the
//! second at `3k + 1`, of the third at `3k + 2`.

use vstd::prelude::*;
use crate::endian::{le_u32, read_u32_le};

verus! {

/// The value whose bit `k` is bit `3k` of `m`, for `k` in `0..10`.
pub open spec fn gather3(m: u32) -> u32 {
    (m & 0x1) | ((m >> 2) & 0x2) | ((m >> 4) & 0x4) | ((m >> 6) & 0x8) | ((m >> 8) & 0x10) | ((m
        >> 10) & 0x20) | ((m >> 12) & 0x40) | ((m >> 14) & 0x80) | ((m >> 16) & 0x100) | ((m >> 18)
        & 0x200)
}

/// The value whose bit `3k` is bit `k` of `a`, for `k` in `0..10`, and whose
/// other bits are zero.
pub open spec fn interleave3(a: u32) -> u32 {
    (a & 0x1) | ((a & 0x2) << 2) | ((a & 0x4) << 4) | ((a & 0x8) << 6) | ((a & 0x10) << 8) | ((a
        & 0x20) << 10) | ((a & 0x40) << 12) | ((a & 0x80) << 14) | ((a & 0x100) << 16) | ((a
        & 0x200) << 18)
}

/// Keeps every third bit of `morton`, starting at bit 0, and gathers the ten
/// of them at the low end.
pub fn dealign_24b(morton: u32) -> (r: u32)
    ensures
        r == gather3(morton),
{
    let m0: u32 = morton & 0x09249249;
    let m1: u32 = (m0 | (m0 >> 2)) & 0x030c30c3;
    let m2: u32 = (m1 | (m1 >> 4)) & 0x0300f00f;
    let m3: u32 = (m2 | (m2 >> 8)) & 0x030000ff;
    let m4: u32 = (m3 | (m3 >> 16)) & 0x000003ff;
    assert(m4 == gather3(morton)) by (bit_vector)
        requires
            m0 == morton & 0x09249249,
            m1 == (m0 | (m0 >> 2)) & 0x030c30c3,
            m2 == (m1 | (m1 >> 4)) & 0x0300f00f,
            m3 == (m2 | (m2 >> 8)) & 0x030000ff,
            m4 == (m3 | (m3 >> 16)) & 0x000003ff,
    ;
    m4
}

/// Gathering undoes interleaving on every ten-bit value.
pub proof fn lemma_gather3_interleave3(a: u32)
    requires
        a < 1024,
    ensures
        gather3(interleave3(a)) == a,
{
    assert(gather3(interleave3(a)) == a) by (bit_vector)
        requires
            a < 1024,
    ;
}

/// One coordinate out of the low 48 bits of a code that stands in two words:
/// its bits 0 to 7 from the low 24 bits of `low`, its bits 8 to 17 from the
/// 32 bits that follow them. `shift` picks the coordinate: 0, 1 or 2.
pub open spec fn axis_of_pair(low: u32, high: u32, shift: u32) -> u32 {
    gather3((low & 0x00FF_FFFF) >> shift) | (gather3(((low >> 24) | (high << 8)) >> shift) << 8)
}

/// The three 16-bit channels of a 64-bit code whose low word is `mc_1` and
/// whose high word is `mc_0`.
pub open spec fn morton_64(mc_0: u32, mc_1: u32) -> (u16, u16, u16) {
    (
        (axis_of_pair(mc_1, mc_0, 0) & 0xFFFF) as u16,
        (axis_of_pair(mc_1, mc_0, 1) & 0xFFFF) as u16,
        (axis_of_pair(mc_1, mc_0, 2) & 0xFFFF) as u16,
    )
}

/// One coordinate of a 128-bit code in four words: its low half from the
/// pair `mc_3`, `mc_2`, its high half from the pair `mc_1`, `mc_0`.
pub open spec fn axis_of_quad(mc_0: u32, mc_1: u32, mc_2: u32, mc_3: u32, shift: u32) -> u32 {
    axis_of_pair(mc_3, mc_2, shift) | (axis_of_pair(mc_1, mc_0, shift) << 16)
}

/// The three 32-bit coordinates of a 128-bit code in four words.
pub open spec fn morton_128(mc_0: u32, mc_1: u32, mc_2: u32, mc_3: u32) -> (u32, u32, u32) {
    (
        axis_of_quad(mc_0, mc_1, mc_2, mc_3, 0),
        axis_of_quad(mc_0, mc_1, mc_2, mc_3, 1),
        axis_of_quad(mc_0, mc_1, mc_2, mc_3, 2),
    )
}

/// One coordinate out of two words.
fn decode_pair(low: u32, high: u32, shift: u32) -> (r: u32)
    requires
        shift < 3,
    ensures
        r == axis_of_pair(low, high, shift),
{
    dealign_24b((low & 0x00FF_FFFF) >> shift) | (dealign_24b(((low >> 24) | (high << 8)) >> shift)
        << 8)
}

/// Decodes a 64-bit Morton code, given as its high word `mc_0` and its low
/// word `mc_1`, into three 16-bit channels.
pub fn decode_morton_64(mc_0: u32, mc_1: u32) -> (r: (u16, u16, u16))
    ensures
        r == morton_64(mc_0, mc_1),
{
    let r: u32 = decode_pair(mc_1, mc_0, 0);
    let g: u32 = decode_pair(mc_1, mc_0, 1);
    let b: u32 = decode_pair(mc_1, mc_0, 2);
    ((r & 0xFFFF) as u16, (g & 0xFFFF) as u16, (b & 0xFFFF) as u16)
}

/// Decodes a 128-bit Morton code, given as four words from the highest,
/// `mc_0`, to the lowest, `mc_3`, into three 32-bit coordinates.
pub fn decode_morton_128(mc_0: u32, mc_1: u32, mc_2: u32, mc_3: u32) -> (r: (u32, u32, u32))
    ensures
        r == morton_128(mc_0, mc_1, mc_2, mc_3),
{
    // First part (lower bits)
    let mut x: u32 = decode_pair(mc_3, mc_2, 0);
    let mut y: u32 = decode_pair(mc_3, mc_2, 1);
    let mut z: u32 = decode_pair(mc_3, mc_2, 2);
    // Second part (upper bits) - only if needed
    if mc_1 != 0 || mc_0 != 0 {
        x = x | (decode_pair(mc_1, mc_0, 0) << 16);
        y = y | (decode_pair(mc_1, mc_0, 1) << 16);
        z = z | (decode_pair(mc_1, mc_0, 2) << 16);
    } else {
        assert(axis_of_pair(0, 0, 0) << 16 == 0 && axis_of_pair(0, 0, 1) << 16 == 0
            && axis_of_pair(0, 0, 2) << 16 == 0) by (bit_vector);
        assert(x | 0 == x && y | 0 == y && z | 0 == z) by (bit_vector);
    }
    (x, y, z)
}

/// The 64-bit code of the eight bytes of `bytes` from `at` on, decoded: the
/// first four bytes are its high word, the last four its low word, each with
/// its lowest byte first.
pub open spec fn morton_64_at(bytes: Seq<u8>, at: int) -> (u16, u16, u16) {
    morton_64(le_u32(bytes, at), le_u32(bytes, at + 4))
}

/// The 128-bit code of the sixteen bytes of `bytes` from `at` on, decoded:
/// four words from the highest to the lowest, each with its lowest byte
/// first.
pub open spec fn morton_128_at(bytes: Seq<u8>, at: int) -> (u32, u32, u32) {
    morton_128(
        le_u32(bytes, at),
        le_u32(bytes, at + 4),
        le_u32(bytes, at + 8),
        le_u32(bytes, at + 12),
    )
}

/// Reads and decodes the 64-bit code in the first eight bytes.
pub fn read_morton_64(bytes: &[u8]) -> (r: (u16, u16, u16))
    requires
        bytes.len() >= 8,
    ensures
        r == morton_64_at(bytes@, 0),
{
    let mc_0 = read_u32_le(bytes, 0);
    let mc_1 = read_u32_le(bytes, 4);
    decode_morton_64(mc_0, mc_1)
}

/// Reads and decodes the 128-bit code in the first sixteen bytes.
pub fn read_morton_128(bytes: &[u8]) -> (r: (u32, u32, u32))
    requires
        bytes.len() >= 16,
    ensures
        r == morton_128_at(bytes@, 0),
{
    let mc_0 = read_u32_le(bytes, 0);
    let mc_1 = read_u32_le(bytes, 4);
    let mc_2 = read_u32_le(bytes, 8);
    let mc_3 = read_u32_le(bytes, 12);
    decode_morton_128(mc_0, mc_1, mc_2, mc_3)
}

/// The value whose bit `3k` is bit `k` of `a`, for `k` in `0..16`, and whose
/// other bits are zero.
pub open spec fn spread16(a: u64) -> u64 {
    (a & 0x1) | ((a & 0x2) << 2) | ((a & 0x4) << 4) | ((a & 0x8) << 6) | ((a & 0x10) << 8) | ((a
        & 0x20) << 10) | ((a & 0x40) << 12) | ((a & 0x80) << 14) | ((a & 0x100) << 16) | ((a
        & 0x200) << 18) | ((a & 0x400) << 20) | ((a & 0x800) << 22) | ((a & 0x1000) << 24) | ((a
        & 0x2000) << 26) | ((a & 0x4000) << 28) | ((a & 0x8000) << 30)
}

/// The Morton code of three 16-bit values: bit `k` of `x` at position `3k`,
/// of `y` at `3k + 1`, of `z` at `3k + 2`.
pub open spec fn interleave48(x: u16, y: u16, z: u16) -> u64 {
    spread16(x as u64) | (spread16(y as u64) << 1) | (spread16(z as u64) << 2)
}

/// The low word of a 64-bit code.
pub open spec fn low_word(code: u64) -> u32 {
    (code & 0xFFFF_FFFF) as u32
}

/// The high word of a 64-bit code.
pub open spec fn high_word(code: u64) -> u32 {
    (code >> 32) as u32
}

/// Decoding the 64-bit Morton code of three 16-bit channels gives the
/// channels back.
pub proof fn lemma_morton_64_round_trip(r: u16, g: u16, b: u16)
    ensures
        morton_64(high_word(interleave48(r, g, b)), low_word(interleave48(r, g, b))) == (r, g, b),
{
    assert((axis_of_pair(low_word(interleave48(r, g, b)), high_word(interleave48(r, g, b)), 0)
        & 0xFFFF) as u16 == r) by (bit_vector);
    assert((axis_of_pair(low_word(interleave48(r, g, b)), high_word(interleave48(r, g, b)), 1)
        & 0xFFFF) as u16 == g) by (bit_vector);
    assert((axis_of_pair(low_word(interleave48(r, g, b)), high_word(interleave48(r, g, b)), 2)
        & 0xFFFF) as u16 == b) by (bit_vector);
}

/// Out of the two words of the Morton code of three 16-bit values come the
/// three values.
proof fn lemma_pair_round_trip(x: u16, y: u16, z: u16)
    ensures
        axis_of_pair(low_word(interleave48(x, y, z)), high_word(interleave48(x, y, z)), 0) == x,
        axis_of_pair(low_word(interleave48(x, y, z)), high_word(interleave48(x, y, z)), 1) == y,
        axis_of_pair(low_word(interleave48(x, y, z)), high_word(interleave48(x, y, z)), 2) == z,
{
    assert(axis_of_pair(low_word(interleave48(x, y, z)), high_word(interleave48(x, y, z)), 0)
        == x) by (bit_vector);
    assert(axis_of_pair(low_word(interleave48(x, y, z)), high_word(interleave48(x, y, z)), 1)
        == y) by (bit_vector);
    assert(axis_of_pair(low_word(interleave48(x, y, z)), high_word(interleave48(x, y, z)), 2)
        == z) by (bit_vector);
}

/// The low 16 bits of a coordinate.
pub open spec fn low_half(a: u32) -> u16 {
    (a & 0xFFFF) as u16
}

/// The high 16 bits of a coordinate.
pub open spec fn high_half(a: u32) -> u16 {
    (a >> 16) as u16
}

/// Decoding the 128-bit Morton code of three coordinates gives the
/// coordinates back. The code holds the Morton code of their low halves in
/// its low two words and that of their high halves in its high two words.
pub proof fn lemma_morton_128_round_trip(x: u32, y: u32, z: u32)
    ensures
        morton_128(
            high_word(interleave48(high_half(x), high_half(y), high_half(z))),
            low_word(interleave48(high_half(x), high_half(y), high_half(z))),
            high_word(interleave48(low_half(x), low_half(y), low_half(z))),
            low_word(interleave48(low_half(x), low_half(y), low_half(z))),
        ) == (x, y, z),
{
    lemma_pair_round_trip(high_half(x), high_half(y), high_half(z));
    lemma_pair_round_trip(low_half(x), low_half(y), low_half(z));
    lemma_halves(x);
    lemma_halves(y);
    lemma_halves(z);
}

/// A coordinate is its low half with its high half sixteen bits above it.
proof fn lemma_halves(a: u32)
    ensures
        (low_half(a) as u32) | ((high_half(a) as u32) << 16) == a,
{
    assert((((a & 0xFFFF) as u16) as u32) | ((((a >> 16) as u16) as u32) << 16) == a)
        by (bit_vector);
}

} // verus!
