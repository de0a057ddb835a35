//! Union-of-rooms geometry shared by shell, corners, and door steps.
use vstd::prelude::*;

use crate::map::map_generator::draft::Room;
use crate::map::map_generator::house::union_has;
use crate::map::world_map::{
    valid_mask, WallMask, MASK_EAST, MASK_NORTH, MASK_SOUTH, MASK_WEST,
};

verus! {

pub fn union_contains(rooms: &[Room], x: i32, z: i32) -> (inside: bool)
    ensures
        inside == union_has(rooms@, x as int, z as int),
{
    let mut i: usize = 0;
    while i < rooms.len()
        invariant
            i <= rooms@.len(),
            forall|j: int| 0 <= j < i ==> !(#[trigger] rooms@[j]).has(x as int, z as int),
        decreases rooms@.len() - i,
    {
        if rooms[i].contains(x, z) {
            return true;
        }
        i += 1;
    }
    false
}

/// The slabs that stand for the missing neighbours.
pub open spec fn slabs(north: bool, south: bool, west: bool, east: bool) -> int {
    (if north { 1int } else { 0 }) + (if south { 2int } else { 0 }) + (if west { 8int } else { 0 })
        + (if east { 4int } else { 0 })
}

/// Slabs of the shell at a cell of the union: one on each side where the union ends.
pub open spec fn shell_bits(rooms: Seq<Room>, x: int, z: int) -> int {
    slabs(
        !union_has(rooms, x, z - 1),
        !union_has(rooms, x, z + 1),
        !union_has(rooms, x - 1, z),
        !union_has(rooms, x + 1, z),
    )
}

/// Outward-facing wall bits for a union perimeter cell (`None` = not on the shell).
pub fn union_perimeter_wall_mask(rooms: &[Room], x: i32, z: i32) -> (mask: Option<WallMask>)
    requires
        i32::MIN < x < i32::MAX,
        i32::MIN < z < i32::MAX,
    ensures
        match mask {
            Some(m) => union_has(rooms@, x as int, z as int) && m.edges() == shell_bits(
                rooms@,
                x as int,
                z as int,
            ) && valid_mask(m.edges()),
            None => !union_has(rooms@, x as int, z as int) || shell_bits(
                rooms@,
                x as int,
                z as int,
            ) == 0,
        },
{
    if !union_contains(rooms, x, z) {
        return None;
    }
    let mut bits: u8 = 0;
    if !union_contains(rooms, x, z - 1) {
        bits = bits + MASK_NORTH;
    }
    if !union_contains(rooms, x, z + 1) {
        bits = bits + MASK_SOUTH;
    }
    if !union_contains(rooms, x - 1, z) {
        bits = bits + MASK_WEST;
    }
    if !union_contains(rooms, x + 1, z) {
        bits = bits + MASK_EAST;
    }
    WallMask::from_bits(bits)
}

} // verus!
