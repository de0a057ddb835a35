//! Where an entity stands.
use vstd::prelude::*;

use crate::table::TableKey;

verus! {

/// World location of an interactive entity: a tile and a vertical floor.
#[derive(Debug, Clone, Copy, PartialEq, Eq, Structural, Hash)]
pub struct EntityCoordinates {
    pub x: i32,
    pub y: i32,
    pub floor: i32,
}

impl EntityCoordinates {
    pub fn new(x: i32, y: i32, floor: i32) -> (coordinates: Self)
        ensures
            coordinates == (EntityCoordinates { x, y, floor }),
    {
        EntityCoordinates { x, y, floor }
    }

    /// Ground-floor (`0`) coordinates from a world tile.
    pub fn ground(x: i32, y: i32) -> (coordinates: Self)
        ensures
            coordinates == (EntityCoordinates { x, y, floor: 0 }),
    {
        EntityCoordinates::new(x, y, 0)
    }
}

impl TableKey for EntityCoordinates {
    /// The three components, shifted to be non-negative and laid side by side.
    open spec fn number(self) -> u128 {
        (((self.x + 0x8000_0000) * 0x1_0000_0000 + (self.y + 0x8000_0000)) * 0x1_0000_0000 + (
        self.floor + 0x8000_0000)) as u128
    }

    fn table_number(&self) -> (n: u128) {
        let x: u128 = (self.x as i64 + 0x8000_0000) as u128;
        let y: u128 = (self.y as i64 + 0x8000_0000) as u128;
        let floor: u128 = (self.floor as i64 + 0x8000_0000) as u128;
        (x * 0x1_0000_0000 + y) * 0x1_0000_0000 + floor
    }

    fn same_key(&self, other: &Self) -> (same: bool) {
        *self == *other
    }

    proof fn one_number_one_key(a: Self, b: Self) {
        let (ax, ay, af) = (a.x + 0x8000_0000, a.y + 0x8000_0000, a.floor + 0x8000_0000);
        let (bx, by, bf) = (b.x + 0x8000_0000, b.y + 0x8000_0000, b.floor + 0x8000_0000);
        assert((ax * 0x1_0000_0000 + ay) * 0x1_0000_0000 + af == (bx * 0x1_0000_0000 + by)
            * 0x1_0000_0000 + bf);
        assert(ax == bx && ay == by && af == bf);
    }
}

} // verus!
