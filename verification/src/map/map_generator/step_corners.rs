//! Step 8: stamp `c*` pillars from wall layout via [`corner_pillars`](super::corner_pillars).
use vstd::prelude::*;

use crate::map::map_generator::corner_pillars::{
    are_pillars, detect_corner_pillars, pillar_at, placed, CornerPillarPlacement, WallField,
};
use crate::map::map_generator::draft::{
    get_tile, set_tile, sound, tile_at, Cells, DraftTile, MapDraft,
};
use crate::map::map_generator::step_carpet::earlier_cell;

verus! {

/// The slabs of a wall tile.
pub open spec fn wall_bits(tile: DraftTile) -> Option<u8> {
    match tile {
        DraftTile::Wall(bits) => Some(bits),
        _ => None,
    }
}

/// Whether the field holds the walls of the grid.
pub open spec fn shows_walls(field: WallField, cells: Cells, n: int) -> bool {
    &&& field.wf()
    &&& field.size == n
    &&& forall|x: int, z: int| #[trigger] field.mask(x, z) == wall_bits(tile_at(cells, x, z))
}

/// The walls of a draft grid.
pub fn wall_field_from_cells(cells: &Cells, size: i32) -> (field: WallField)
    requires
        sound(*cells, size as int),
    ensures
        shows_walls(field, *cells, size as int),
{
    let mut field = WallField::new(size);
    let mut z: i32 = 0;
    while z < size
        invariant
            sound(*cells, size as int),
            0 <= z <= size,
            field.wf(),
            field.size == size,
            forall|u: int, w: int| #[trigger]
                field.mask(u, w) == if w < z {
                    wall_bits(tile_at(*cells, u, w))
                } else {
                    None
                },
        decreases size - z,
    {
        let mut x: i32 = 0;
        while x < size
            invariant
                sound(*cells, size as int),
                0 <= z < size,
                0 <= x <= size,
                field.wf(),
                field.size == size,
                forall|u: int, w: int| #[trigger]
                    field.mask(u, w) == if earlier_cell(u, w, x as int, z as int) {
                        wall_bits(tile_at(*cells, u, w))
                    } else {
                        None
                    },
            decreases size - x,
        {
            if let DraftTile::Wall(bits) = get_tile(cells, x, z) {
                field.set_wall(x, z, bits);
            }
            x += 1;
        }
        z += 1;
    }
    field
}

/// The tile after pillars were stamped: open floor where a pillar belongs gets it.
pub open spec fn with_pillar(field: WallField, x: int, z: int, before: DraftTile) -> DraftTile {
    match pillar_at(field, x, z) {
        Some(corner) => if before == DraftTile::Open {
            DraftTile::Corner(corner)
        } else {
            before
        },
        None => before,
    }
}

fn stamp_pillars(cells: &mut Cells, pillars: &Vec<CornerPillarPlacement>, Ghost(field): Ghost<
    WallField,
>)
    requires
        sound(*old(cells), old(cells)@.len() as int),
        field.size == old(cells)@.len(),
        are_pillars(field, pillars@),
    ensures
        final(cells)@.len() == old(cells)@.len(),
        sound(*final(cells), final(cells)@.len() as int),
        forall|x: int, z: int| #[trigger]
            tile_at(*final(cells), x, z) == with_pillar(field, x, z, tile_at(*old(cells), x, z)),
{
    let mut i: usize = 0;
    while i < pillars.len()
        invariant
            cells@.len() == old(cells)@.len(),
            sound(*cells, cells@.len() as int),
            field.size == cells@.len(),
            are_pillars(field, pillars@),
            i <= pillars@.len(),
            forall|x: int, z: int| #[trigger]
                tile_at(*cells, x, z) == if placed(pillars@.take(i as int), x, z) {
                    with_pillar(field, x, z, tile_at(*old(cells), x, z))
                } else {
                    tile_at(*old(cells), x, z)
                },
        decreases pillars@.len() - i,
    {
        let p: CornerPillarPlacement = pillars[i];
        let ghost before = *cells;
        assert(pillar_at(field, p.x as int, p.z as int) == Some(p.corner));
        proof {
            let a = pillars@.take(i as int);
            let b = pillars@.take(i + 1);
            assert(b =~= a.push(p));
            assert forall|x: int, z: int| #[trigger]
                placed(b, x, z) == (placed(a, x, z) || x == p.x && z == p.z) by {
                if placed(a, x, z) {
                    let k = choose|k: int|
                        0 <= k < a.len() && (#[trigger] a[k]).x == x && a[k].z == z;
                    assert(b[k].x == x && b[k].z == z);
                }
                if placed(b, x, z) {
                    let k = choose|k: int|
                        0 <= k < b.len() && (#[trigger] b[k]).x == x && b[k].z == z;
                    if k < a.len() {
                        assert(a[k].x == x && a[k].z == z);
                    }
                }
                if x == p.x && z == p.z {
                    assert(b[i as int].x == x && b[i as int].z == z);
                }
            }
            if placed(a, p.x as int, p.z as int) {
                let k = choose|k: int|
                    0 <= k < a.len() && (#[trigger] a[k]).x == p.x && a[k].z == p.z;
                assert(pillars@[k].x == pillars@[i as int].x && pillars@[k].z
                    == pillars@[i as int].z);
            }
        }
        if get_tile(cells, p.x, p.z) == DraftTile::Open {
            set_tile(cells, p.x, p.z, DraftTile::Corner(p.corner));
        }
        i += 1;
    }
    assert(pillars@.take(i as int) =~= pillars@);
}

/// Whether the corner pillars that the walls ask for were stamped.
pub open spec fn pillars_stamped(before: MapDraft, after: MapDraft) -> bool {
    &&& after == (MapDraft { cells: after.cells, ..before })
    &&& exists|field: WallField| #[trigger]
        shows_walls(field, before.cells, before.size as int) && forall|
            x: int,
            z: int,
        | #[trigger]
            after.tile(x, z) == with_pillar(field, x, z, before.tile(x, z))
}

impl MapDraft {
    /// Stamps the corner pillars that the wall layout asks for on open floor.
    pub fn step_stamp_union_inner_corner_pillars(&mut self)
        requires
            old(self).wf(),
        ensures
            final(self).wf(),
            pillars_stamped(*old(self), *final(self)),
    {
        let field = wall_field_from_cells(&self.cells, self.size);
        let pillars = detect_corner_pillars(&field);
        stamp_pillars(&mut self.cells, &pillars, Ghost(field));
    }
}

} // verus!
