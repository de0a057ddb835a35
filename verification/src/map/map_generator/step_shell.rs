//! Steps 6–7: union interior floor and outer perimeter walls.
use vstd::prelude::*;

use crate::map::map_generator::draft::{set_tile, sound, tile_at, Cells, DraftTile, MapDraft, Room};
use crate::map::map_generator::grid::in_grid;
use crate::map::map_generator::house::{rects_of, union_has};
use crate::map::map_generator::step_carpet::earlier_cell;
use crate::map::map_generator::union::{shell_bits, union_contains, union_perimeter_wall_mask};

verus! {

/// The shell tile at a cell of the union, or the tile that was there.
pub open spec fn shell_tile(rooms: Seq<Room>, x: int, z: int, before: DraftTile) -> DraftTile {
    if union_has(rooms, x, z) && shell_bits(rooms, x, z) != 0 {
        DraftTile::Wall(shell_bits(rooms, x, z) as u8)
    } else {
        before
    }
}

fn paint_union(cells: &mut Cells, rooms: &Vec<Room>, size: i32)
    requires
        sound(*old(cells), size as int),
    ensures
        sound(*final(cells), size as int),
        forall|u: int, w: int| #[trigger]
            tile_at(*final(cells), u, w) == if in_grid(size as int, u, w) && union_has(
                rooms@,
                u,
                w,
            ) {
                DraftTile::Open
            } else {
                tile_at(*old(cells), u, w)
            },
{
    let mut z: i32 = 0;
    while z < size
        invariant
            sound(*cells, size as int),
            0 <= z <= size <= 46340,
            forall|u: int, w: int| #[trigger]
                tile_at(*cells, u, w) == if in_grid(size as int, u, w) && w < z && union_has(
                    rooms@,
                    u,
                    w,
                ) {
                    DraftTile::Open
                } else {
                    tile_at(*old(cells), u, w)
                },
        decreases size - z,
    {
        let mut x: i32 = 0;
        while x < size
            invariant
                sound(*cells, size as int),
                0 <= x <= size <= 46340,
                0 <= z < size,
                forall|u: int, w: int| #[trigger]
                    tile_at(*cells, u, w) == if in_grid(size as int, u, w) && earlier_cell(
                        u,
                        w,
                        x as int,
                        z as int,
                    ) && union_has(rooms@, u, w) {
                        DraftTile::Open
                    } else {
                        tile_at(*old(cells), u, w)
                    },
            decreases size - x,
        {
            if union_contains(rooms.as_slice(), x, z) {
                set_tile(cells, x, z, DraftTile::Open);
            }
            x += 1;
        }
        z += 1;
    }
}

fn build_shell(cells: &mut Cells, rooms: &Vec<Room>, size: i32)
    requires
        sound(*old(cells), size as int),
    ensures
        sound(*final(cells), size as int),
        forall|u: int, w: int| #[trigger]
            tile_at(*final(cells), u, w) == if in_grid(size as int, u, w) {
                shell_tile(rooms@, u, w, tile_at(*old(cells), u, w))
            } else {
                DraftTile::Void
            },
{
    let mut z: i32 = 0;
    while z < size
        invariant
            sound(*cells, size as int),
            0 <= z <= size <= 46340,
            forall|u: int, w: int| #[trigger]
                tile_at(*cells, u, w) == if in_grid(size as int, u, w) && w < z {
                    shell_tile(rooms@, u, w, tile_at(*old(cells), u, w))
                } else {
                    tile_at(*old(cells), u, w)
                },
        decreases size - z,
    {
        let mut x: i32 = 0;
        while x < size
            invariant
                sound(*cells, size as int),
                0 <= x <= size <= 46340,
                0 <= z < size,
                forall|u: int, w: int| #[trigger]
                    tile_at(*cells, u, w) == if in_grid(size as int, u, w) && earlier_cell(
                        u,
                        w,
                        x as int,
                        z as int,
                    ) {
                        shell_tile(rooms@, u, w, tile_at(*old(cells), u, w))
                    } else {
                        tile_at(*old(cells), u, w)
                    },
            decreases size - x,
        {
            if let Some(mask) = union_perimeter_wall_mask(rooms.as_slice(), x, z) {
                set_tile(cells, x, z, DraftTile::Wall(mask.bits()));
            }
            x += 1;
        }
        z += 1;
    }
}

/// Whether the footprints of all houses were opened.
pub open spec fn interior_painted(before: MapDraft, after: MapDraft) -> bool {
    &&& after == (MapDraft { cells: after.cells, ..before })
    &&& forall|x: int, z: int| #[trigger]
        after.tile(x, z) == if in_grid(before.size as int, x, z) && union_has(
            rects_of(before.houses@, before.houses@.len()),
            x,
            z,
        ) {
            DraftTile::Open
        } else {
            before.tile(x, z)
        }
}

/// Whether the outer walls of all houses were built.
pub open spec fn shell_built(before: MapDraft, after: MapDraft) -> bool {
    &&& after == (MapDraft { cells: after.cells, ..before })
    &&& forall|x: int, z: int| #[trigger]
        after.tile(x, z) == if in_grid(before.size as int, x, z) {
            shell_tile(
                rects_of(before.houses@, before.houses@.len()),
                x,
                z,
                before.tile(x, z),
            )
        } else {
            DraftTile::Void
        }
}

impl MapDraft {
    /// Marks the union of all subseed room rectangles as walkable floor (no walls yet).
    pub fn step_paint_union_interior(&mut self)
        requires
            old(self).wf(),
        ensures
            final(self).wf(),
            interior_painted(*old(self), *final(self)),
    {
        let rooms = self.rooms();
        paint_union(&mut self.cells, &rooms, self.size);
    }

    /// Outer shell only: perimeter cells of the union get outward-facing wall masks.
    pub fn step_build_union_outer_walls(&mut self)
        requires
            old(self).wf(),
        ensures
            final(self).wf(),
            shell_built(*old(self), *final(self)),
    {
        let rooms = self.rooms();
        build_shell(&mut self.cells, &rooms, self.size);
    }
}

/// A wall of the shell stands where the union ends: no wall is laid inside it.
pub proof fn shell_walls_face_outward(rooms: Seq<Room>, x: int, z: int, before: DraftTile)
    requires
        !(before is Wall),
        shell_tile(rooms, x, z, before) is Wall,
    ensures
        union_has(rooms, x, z),
        !union_has(rooms, x, z - 1) || !union_has(rooms, x, z + 1) || !union_has(rooms, x - 1, z)
            || !union_has(rooms, x + 1, z),
{
}

} // verus!
