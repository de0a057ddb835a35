//! Collision flags on the subtile grid: five by five subtiles per tile.
use vstd::prelude::*;

verus! {

/// Subtiles per tile and axis.
pub const SUBTILE_COUNT: usize = 5;

/// Something stands on the subtile.
pub const FLAG_BLOCKED: u64 = 1;

/// A creature's body covers the subtile.
pub const FLAG_CREATURE: u64 = 2;

/// There is no floor.
pub const FLAG_VOID: u64 = 4;

/// Flags of the subtiles of one tile, row by row.
#[derive(Debug, Clone, Copy, PartialEq, Eq)]
pub struct SubtilePassability {
    flags: [u64; 25],
}

impl SubtilePassability {
    /// The flags of the subtile in row `sy` and column `sx`.
    pub closed spec fn at(self, sy: int, sx: int) -> u64 {
        self.flags@[sy * 5 + sx]
    }

    /// A tile without flags.
    pub fn empty() -> (tile: Self)
        ensures
            forall|sy: int, sx: int|
                0 <= sy < 5 && 0 <= sx < 5 ==> #[trigger] tile.at(sy, sx) == 0,
    {
        SubtilePassability { flags: [0;25] }
    }

    pub fn flags_at(&self, sy: usize, sx: usize) -> (flags: u64)
        requires
            sy < SUBTILE_COUNT,
            sx < SUBTILE_COUNT,
        ensures
            flags == self.at(sy as int, sx as int),
    {
        self.flags[sy * 5 + sx]
    }

    /// Adds flags to one subtile.
    pub fn or_flags(&mut self, sy: usize, sx: usize, flags: u64)
        requires
            sy < SUBTILE_COUNT,
            sx < SUBTILE_COUNT,
        ensures
            forall|y: int, x: int|
                0 <= y < 5 && 0 <= x < 5 ==> #[trigger] final(self).at(y, x) == if y == sy && x
                    == sx {
                    old(self).at(y, x) | flags
                } else {
                    old(self).at(y, x)
                },
    {
        let i: usize = sy * 5 + sx;
        let joined: u64 = self.flags[i] | flags;
        self.flags[i] = joined;
    }
}

} // verus!
