//! How an octant index names one of the eight parts of a box.
//!
//! A box is cut in half along each axis, and an octant takes one half on
//! each: bit 0 of its index picks the half along z, bit 1 along y, bit 2
//! along x. A set bit is the upper half.

use vstd::prelude::*;

verus! {

/// The halves of a box that an octant takes.
#[derive(Clone, Copy, Debug, PartialEq, Eq, Structural)]
pub struct OctantHalves {
    pub upper_x: bool,
    pub upper_y: bool,
    pub upper_z: bool,
}

/// The halves that the octant of an index takes. Only the lowest three bits
/// of the index are looked at.
pub open spec fn halves_of(index: usize) -> OctantHalves {
    OctantHalves {
        upper_x: index & 0b0100 != 0,
        upper_y: index & 0b0010 != 0,
        upper_z: index & 0b0001 != 0,
    }
}

/// The halves that the octant of an index takes.
pub fn child_octant_halves(index: usize) -> (halves: OctantHalves)
    ensures
        halves == halves_of(index),
{
    OctantHalves {
        upper_x: index & 0b0100 != 0,
        upper_y: index & 0b0010 != 0,
        upper_z: index & 0b0001 != 0,
    }
}

/// The index of the octant that takes the given halves.
pub open spec fn octant_with(halves: OctantHalves) -> usize {
    ((if halves.upper_x {
        4int
    } else {
        0int
    }) + (if halves.upper_y {
        2int
    } else {
        0int
    }) + (if halves.upper_z {
        1int
    } else {
        0int
    })) as usize
}

/// The eight octants part a box: no two of them take the same halves, and
/// every choice of halves is that of one of them.
pub proof fn lemma_octants_part_the_box(first: usize, second: usize, halves: OctantHalves)
    requires
        first < 8,
        second < 8,
    ensures
        halves_of(first) == halves_of(second) ==> first == second,
        octant_with(halves) < 8,
        halves_of(octant_with(halves)) == halves,
{
    assert((first & 0b0100 != 0) == (second & 0b0100 != 0) && (first & 0b0010 != 0) == (second
        & 0b0010 != 0) && (first & 0b0001 != 0) == (second & 0b0001 != 0) ==> first == second)
        by (bit_vector)
        requires
            first < 8,
            second < 8,
    ;
    assert(0usize & 4 == 0 && 0usize & 2 == 0 && 0usize & 1 == 0) by (bit_vector);
    assert(1usize & 4 == 0 && 1usize & 2 == 0 && 1usize & 1 != 0) by (bit_vector);
    assert(2usize & 4 == 0 && 2usize & 2 != 0 && 2usize & 1 == 0) by (bit_vector);
    assert(3usize & 4 == 0 && 3usize & 2 != 0 && 3usize & 1 != 0) by (bit_vector);
    assert(4usize & 4 != 0 && 4usize & 2 == 0 && 4usize & 1 == 0) by (bit_vector);
    assert(5usize & 4 != 0 && 5usize & 2 == 0 && 5usize & 1 != 0) by (bit_vector);
    assert(6usize & 4 != 0 && 6usize & 2 != 0 && 6usize & 1 == 0) by (bit_vector);
    assert(7usize & 4 != 0 && 7usize & 2 != 0 && 7usize & 1 != 0) by (bit_vector);
}

} // verus!
