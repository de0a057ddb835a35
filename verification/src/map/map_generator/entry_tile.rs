//! The floor tile at a house's main doorway.
use vstd::prelude::*;

use crate::map::map_generator::draft::{get_tile, sound, tile_at, Cells, DraftTile, MapDraft};
use crate::map::map_generator::step_door::{
    edge_delta, entrypoint_inward_tile, entrypoint_walk_tile, is_edge, near_grid,
};
use crate::map::map_generator::types::HouseEntrypoint;

verus! {

/// The neighbour of (x, z) number `k`: north, south, east, west.
pub open spec fn cardinal(x: int, z: int, k: int) -> (int, int) {
    if k == 0 {
        (x, z - 1)
    } else if k == 1 {
        (x, z + 1)
    } else if k == 2 {
        (x + 1, z)
    } else {
        (x - 1, z)
    }
}

/// The places where the floor of a doorway is looked for, in order: inside, the door cell,
/// around the door cell, around the road tile outside.
pub open spec fn entry_place(ep: HouseEntrypoint, k: int) -> (int, int) {
    let (dx, dz) = edge_delta(ep.outward_edge);
    if k == 0 {
        (ep.wall_x - dx, ep.wall_z - dz)
    } else if k == 1 {
        (ep.wall_x as int, ep.wall_z as int)
    } else if k < 6 {
        cardinal(ep.wall_x as int, ep.wall_z as int, k - 2)
    } else {
        cardinal(ep.wall_x + dx, ep.wall_z + dz, k - 6)
    }
}

/// Whether the place is the road tile outside the door.
pub open spec fn is_walk_place(ep: HouseEntrypoint, k: int) -> bool {
    let (dx, dz) = edge_delta(ep.outward_edge);
    2 <= k < 6 && entry_place(ep, k) == (ep.wall_x + dx, ep.wall_z + dz)
}

/// The first open tile among the places, from place `k` on; the road tile outside the door is
/// passed over.
pub open spec fn entry_floor(cells: Cells, ep: HouseEntrypoint, k: int) -> Option<(int, int)>
    decreases 10 - k,
{
    let p = entry_place(ep, k);
    if k >= 10 {
        None
    } else if tile_at(cells, p.0, p.1) == DraftTile::Open && !is_walk_place(ep, k) {
        Some(p)
    } else {
        entry_floor(cells, ep, k + 1)
    }
}

fn cardinal_of(x: i32, z: i32, k: u8) -> (p: (i32, i32))
    requires
        i32::MIN < x < i32::MAX,
        i32::MIN < z < i32::MAX,
    ensures
        p.0 == cardinal(x as int, z as int, k as int).0,
        p.1 == cardinal(x as int, z as int, k as int).1,
{
    if k == 0 {
        (x, z - 1)
    } else if k == 1 {
        (x, z + 1)
    } else if k == 2 {
        (x + 1, z)
    } else {
        (x - 1, z)
    }
}

/// Whether the tile is the road tile outside the door.
pub open spec fn is_walk_tile(ep: HouseEntrypoint, t: (i32, i32)) -> bool {
    t.0 == ep.wall_x + edge_delta(ep.outward_edge).0 && t.1 == ep.wall_z + edge_delta(
        ep.outward_edge,
    ).1
}

/// Open floor at the house main doorway.
pub fn entry_interior_tile(cells: &Cells, ep: &HouseEntrypoint) -> (found: Option<(i32, i32)>)
    requires
        sound(*cells, cells@.len() as int),
        near_grid(ep.wall_x as int, ep.wall_z as int),
    ensures
        match found {
            Some(t) => entry_floor(*cells, *ep, 0) == Some((t.0 as int, t.1 as int)) && tile_at(
                *cells,
                t.0 as int,
                t.1 as int,
            ) == DraftTile::Open && (is_edge(ep.outward_edge) ==> !is_walk_tile(*ep, t)),
            None => entry_floor(*cells, *ep, 0) is None,
        },
{
    let (walk_x, walk_z) = entrypoint_walk_tile(ep.wall_x, ep.wall_z, ep.outward_edge);
    let mut k: u8 = 0;
    while k < 10
        invariant
            sound(*cells, cells@.len() as int),
            near_grid(ep.wall_x as int, ep.wall_z as int),
            walk_x == ep.wall_x + edge_delta(ep.outward_edge).0,
            walk_z == ep.wall_z + edge_delta(ep.outward_edge).1,
            k <= 10,
            entry_floor(*cells, *ep, 0) == entry_floor(*cells, *ep, k as int),
        decreases 10 - k,
    {
        let (x, z): (i32, i32) = if k == 0 {
            entrypoint_inward_tile(ep.wall_x, ep.wall_z, ep.outward_edge)
        } else if k == 1 {
            (ep.wall_x, ep.wall_z)
        } else if k < 6 {
            cardinal_of(ep.wall_x, ep.wall_z, k - 2)
        } else {
            cardinal_of(walk_x, walk_z, k - 6)
        };
        let outside: bool = 2 <= k && k < 6 && x == walk_x && z == walk_z;
        if !outside && get_tile(cells, x, z) == DraftTile::Open {
            return Some((x, z));
        }
        k += 1;
    }
    None
}

/// Open floor at the house main doorway (never the exterior road walk tile).
pub fn house_entry_interior_tile(draft: &MapDraft, ep: &HouseEntrypoint) -> (found: Option<
    (i32, i32),
>)
    requires
        draft.wf(),
        near_grid(ep.wall_x as int, ep.wall_z as int),
    ensures
        match found {
            Some(t) => entry_floor(draft.cells, *ep, 0) == Some((t.0 as int, t.1 as int))
                && draft.tile(t.0 as int, t.1 as int) == DraftTile::Open && (is_edge(
                ep.outward_edge,
            ) ==> !is_walk_tile(*ep, t)),
            None => entry_floor(draft.cells, *ep, 0) is None,
        },
{
    entry_interior_tile(&draft.cells, ep)
}

} // verus!
