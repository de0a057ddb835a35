//! Step 1: road carpet inside the chunk margin.
use vstd::prelude::*;

use crate::map::map_generator::draft::{set_tile, sound, tile_at, Cells, DraftTile, MapDraft};

verus! {

/// Whether row-by-row reading reaches (u, w) before (x, z).
pub open spec fn earlier_cell(u: int, w: int, x: int, z: int) -> bool {
    w < z || w == z && u < x
}

/// Opens every cell of the rectangle; the rectangle lies in the grid or is empty.
pub fn fill_rect(cells: &mut Cells, x0: i32, z0: i32, x1: i32, z1: i32, tile: DraftTile)
    requires
        sound(*old(cells), old(cells)@.len() as int),
        x0 < x1 && z0 < z1 ==> 0 <= x0 && x1 <= old(cells)@.len() && 0 <= z0 && z1 <= old(
            cells,
        )@.len(),
        !(tile is Wall),
    ensures
        final(cells)@.len() == old(cells)@.len(),
        sound(*final(cells), final(cells)@.len() as int),
        forall|u: int, w: int| #[trigger]
            tile_at(*final(cells), u, w) == if x0 <= u < x1 && z0 <= w < z1 {
                tile
            } else {
                tile_at(*old(cells), u, w)
            },
{
    if x0 >= x1 || z0 >= z1 {
        return;
    }
    let mut z: i32 = z0;
    while z < z1
        invariant
            sound(*cells, cells@.len() as int),
            cells@.len() == old(cells)@.len(),
            0 <= x0 < x1 <= cells@.len(),
            0 <= z0 <= z <= z1 <= cells@.len(),
            !(tile is Wall),
            forall|u: int, w: int| #[trigger]
                tile_at(*cells, u, w) == if x0 <= u < x1 && z0 <= w < z {
                    tile
                } else {
                    tile_at(*old(cells), u, w)
                },
        decreases z1 - z,
    {
        let mut x: i32 = x0;
        while x < x1
            invariant
                sound(*cells, cells@.len() as int),
                cells@.len() == old(cells)@.len(),
                0 <= x0 <= x <= x1 <= cells@.len(),
                0 <= z0 <= z < z1 <= cells@.len(),
                !(tile is Wall),
                forall|u: int, w: int| #[trigger]
                    tile_at(*cells, u, w) == if x0 <= u < x1 && z0 <= w < z1 && earlier_cell(
                        u,
                        w,
                        x as int,
                        z as int,
                    ) {
                        tile
                    } else {
                        tile_at(*old(cells), u, w)
                    },
            decreases x1 - x,
        {
            set_tile(cells, x, z, tile);
            x += 1;
        }
        z += 1;
    }
}

/// Whether everything inside the margin was opened.
pub open spec fn carpeted(before: MapDraft, after: MapDraft) -> bool {
    &&& after == (MapDraft { cells: after.cells, ..before })
    &&& forall|x: int, z: int| #[trigger]
        after.tile(x, z) == if before.margin <= x < before.size - before.margin && before.margin <= z < before.size - before.margin {
            DraftTile::Open
        } else {
            before.tile(x, z)
        }
}

impl MapDraft {
    pub fn step_init_carpet(&mut self)
        requires
            old(self).wf(),
        ensures
            final(self).wf(),
            carpeted(*old(self), *final(self)),
    {
        let m: i32 = self.margin;
        let end: i32 = self.size - m;
        fill_rect(&mut self.cells, m, m, end, end, DraftTile::Open);
    }
}

} // verus!
