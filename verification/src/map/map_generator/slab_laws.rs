//! What the steps do to walls, told slab by slab: where a shell stands, what a door takes out,
//! what an inner wall adds, and where lamps hang.
use vstd::prelude::*;

use crate::map::map_generator::draft::{tile_at, Cells, DraftTile, Room};
use crate::map::map_generator::house::{union_has, House};
use crate::map::map_generator::step_door::{
    companion, edge_delta, in_a_house, in_other_house, is_edge, lets_through, opened, valid_site,
};
use crate::map::map_generator::step_inner_doors::{cleared, edge_towards, passable_edge};
use crate::map::map_generator::step_inner_walls::{add_slab, line_budget, takes_wall, walled};
use crate::map::map_generator::step_place_lamps::{inner_lamp, outer_lamp};
use crate::map::map_generator::step_shell::shell_tile;
use crate::map::map_generator::union::shell_bits;
use crate::map::search::Tile;
use crate::map::world_map::{LampFacing, MASK_EAST, MASK_NORTH, MASK_SOUTH, MASK_WEST};

verus! {

/// Whether the tile is a wall with a slab on the edge.
pub open spec fn slab_on(tile: DraftTile, edge: u8) -> bool {
    match tile {
        DraftTile::Wall(bits) => bits & edge != 0,
        _ => false,
    }
}

/// The tile across an edge: north is towards smaller z, east towards larger x.
pub open spec fn across(x: int, z: int, edge: u8) -> (int, int) {
    if edge == MASK_NORTH {
        (x, z - 1)
    } else if edge == MASK_SOUTH {
        (x, z + 1)
    } else if edge == MASK_EAST {
        (x + 1, z)
    } else {
        (x - 1, z)
    }
}

/// The edge on the other side of a tile.
pub open spec fn facing_edge(edge: u8) -> u8 {
    if edge == MASK_NORTH {
        MASK_SOUTH
    } else if edge == MASK_SOUTH {
        MASK_NORTH
    } else if edge == MASK_EAST {
        MASK_WEST
    } else {
        MASK_EAST
    }
}

proof fn lemma_bits(b: u8)
    ensures
        (b & 1 != 0) == (b % 2 == 1),
        (b & 2 != 0) == ((b / 2) % 2 == 1),
        (b & 4 != 0) == ((b / 4) % 2 == 1),
        (b & 8 != 0) == ((b / 8) % 2 == 1),
{
    assert((b & 1 != 0) == (b % 2 == 1) && (b & 2 != 0) == ((b / 2) % 2 == 1) && (b & 4 != 0) == ((b
        / 4) % 2 == 1) && (b & 8 != 0) == ((b / 8) % 2 == 1)) by (bit_vector);
}

proof fn lemma_single(b: u8, e: u8, f: u8)
    by (bit_vector)
    requires
        e == 1 || e == 2 || e == 4 || e == 8,
        f == 1 || f == 2 || f == 4 || f == 8,
    ensures
        ((b & !e) & f != 0) <==> (b & f != 0 && f != e),
        ((b | e) & f != 0) <==> (b & f != 0 || f == e),
        (e & f != 0) <==> f == e,
        b <= 15 && b & e != 0 && b & !e == 0 ==> b == e,
        b & !e == 0 && b & f != 0 ==> f == e,
        0u8 & f == 0,
{
}

/// The shell of a house has a slab on every edge where the house ends, and on no other: on the
/// north edge of a cell just where the cell to the north belongs to no part of the house, and
/// so on the other three.
pub proof fn shells_stand_where_the_house_ends(rooms: Seq<Room>, x: int, z: int, before: DraftTile)
    requires
        union_has(rooms, x, z),
        !(before is Wall),
    ensures
        ({
            let tile = shell_tile(rooms, x, z, before);
            &&& slab_on(tile, MASK_NORTH) <==> !union_has(rooms, x, z - 1)
            &&& slab_on(tile, MASK_SOUTH) <==> !union_has(rooms, x, z + 1)
            &&& slab_on(tile, MASK_EAST) <==> !union_has(rooms, x + 1, z)
            &&& slab_on(tile, MASK_WEST) <==> !union_has(rooms, x - 1, z)
            &&& !(tile is Wall) ==> tile == before
        }),
{
    let bits = shell_bits(rooms, x, z);
    assert(0 <= bits <= 15);
    lemma_bits(bits as u8);
}

/// Outside the houses the shell leaves everything as it was.
pub proof fn shells_stay_in_the_house(rooms: Seq<Room>, x: int, z: int, before: DraftTile)
    requires
        !union_has(rooms, x, z),
    ensures
        shell_tile(rooms, x, z, before) == before,
{
}

/// A step across an edge leads to the tile on that side.
pub proof fn edges_point_to_their_side(edge: u8, x: int, z: int)
    requires
        is_edge(edge),
    ensures
        (x + edge_delta(edge).0, z + edge_delta(edge).1) == across(x, z, edge),
        (x - edge_delta(edge).0, z - edge_delta(edge).1) == across(x, z, facing_edge(edge)),
{
}

/// Cutting a door takes out the slab on its edge and no other; a pillar goes as a whole, and
/// floor, stations and void stay.
pub proof fn doors_take_out_one_slab(tile: DraftTile, edge: u8, other: u8)
    requires
        is_edge(edge),
        is_edge(other),
    ensures
        slab_on(opened(tile, edge), other) <==> slab_on(tile, other) && other != edge,
        slab_on(cleared(tile, edge), other) <==> slab_on(tile, other) && other != edge,
        opened(tile, edge) is Wall ==> tile is Wall,
        cleared(tile, edge) is Wall ==> tile is Wall,
        tile is Wall || tile is Corner ==> opened(tile, edge) is Wall || opened(tile, edge)
            == DraftTile::Open,
        tile is Corner ==> opened(tile, edge) == DraftTile::Open,
        !(tile is Wall) && !(tile is Corner) ==> opened(tile, edge) == tile,
        !(tile is Wall) ==> cleared(tile, edge) == tile,
        tile matches DraftTile::Wall(bits) && bits == edge ==> opened(tile, edge) == DraftTile::Open
            && cleared(tile, edge) == DraftTile::Open,
{
    if let DraftTile::Wall(bits) = tile {
        lemma_single(bits, edge, other);
        lemma_single(bits, edge, edge);
        if bits == edge {
            assert(edge & !edge == 0) by (bit_vector);
        }
    }
}

/// A door cell lets one through across an edge just where its only slab stands on that edge, or
/// where it has none and is not void.
pub proof fn door_cells_have_no_other_slab(tile: DraftTile, edge: u8, other: u8)
    requires
        is_edge(edge),
        is_edge(other),
        lets_through(tile, edge),
    ensures
        tile != DraftTile::Void,
        slab_on(tile, other) ==> other == edge,
        tile is Wall ==> slab_on(tile, edge),
        tile is Wall || tile is Corner ==> opened(tile, edge) == DraftTile::Open,
{
    if let DraftTile::Wall(bits) = tile {
        lemma_single(bits, edge, other);
    }
}

/// An inner wall adds a slab on its edge and keeps those that stood; it stands on floor and on
/// walls only.
pub proof fn inner_walls_add_slabs(tile: DraftTile, north: bool, west: bool, other: u8)
    requires
        is_edge(other),
    ensures
        ({
            let bare = tile is Open || tile is Wall;
            &&& slab_on(walled(tile, north, west), other) <==> slab_on(tile, other) || bare && (north
                && other == MASK_NORTH || west && other == MASK_WEST)
            &&& !bare || !north && !west ==> walled(tile, north, west) == tile
            &&& bare && (north || west) ==> walled(tile, north, west) is Wall
        }),
{
    if let DraftTile::Wall(bits) = tile {
        lemma_single(bits, 1, other);
        lemma_single(bits, 8, other);
        lemma_single(bits | 1, 8, other);
    }
    lemma_single(0, 1, other);
    lemma_single(0, 8, other);
    lemma_single(1, 8, other);
    lemma_single(1, 1, other);
}

/// One slab is added on its own edge.
pub proof fn slabs_add_up(tile: DraftTile, edge: u8, other: u8)
    requires
        is_edge(edge),
        is_edge(other),
    ensures
        slab_on(add_slab(tile, edge), other) <==> slab_on(tile, other) || (tile is Open || tile is Wall)
            && other == edge,
{
    if let DraftTile::Wall(bits) = tile {
        lemma_single(bits, edge, other);
    }
    lemma_single(0, edge, other);
}

/// Inner walls keep out of the doorways: they are laid on cells of the house that are no door
/// cell.
pub proof fn inner_walls_keep_out_of_doorways(house: House, x: int, z: int)
    requires
        takes_wall(house, x, z),
    ensures
        house.has(x, z),
        house.entry matches Some(ep) ==> !(ep.wall_x == x && ep.wall_z == z),
        house.entry2 matches Some(ep) ==> !(ep.wall_x == x && ep.wall_z == z),
        house.entry matches Some(ep) ==> (ep.wall2 matches Some(w) ==> !(w.0 == x && w.1 == z)),
        house.entry2 matches Some(ep) ==> (ep.wall2 matches Some(w) ==> !(w.0 == x && w.1 == z)),
{
}

/// A house gets one inner wall for every eighty cells, taking turns between the two directions
/// and starting with the horizontal one, up to three each.
pub proof fn inner_walls_follow_the_area(area: int)
    requires
        0 <= area,
    ensures
        ({
            let (h, v) = line_budget(area);
            &&& 0 <= v <= h <= 3
            &&& h <= v + 1
            &&& v < 3 ==> 80 * (h + v) <= area < 80 * (h + v + 1)
            &&& v == 3 ==> 480 <= area
        }),
{
}

/// A doorway may be cut across an edge just where the tile on the near side is open floor of
/// the house, the tile on the far side is open ground outside all houses, no wall of another
/// house stands right beyond it, and the cell itself lets one through.
pub proof fn doorways_lead_from_floor_to_road(
    cells: Cells,
    houses: Seq<House>,
    h: int,
    x: int,
    z: int,
    edge: u8,
)
    requires
        is_edge(edge),
    ensures
        valid_site(cells, houses, h, x, z, edge) <==> {
            let inside = across(x, z, facing_edge(edge));
            let outside = across(x, z, edge);
            let beyond = across(outside.0, outside.1, edge);
            &&& houses[h].has(inside.0, inside.1)
            &&& tile_at(cells, inside.0, inside.1) == DraftTile::Open
            &&& tile_at(cells, outside.0, outside.1) == DraftTile::Open
            &&& !in_a_house(houses, outside.0, outside.1)
            &&& !((tile_at(cells, beyond.0, beyond.1) is Wall || tile_at(cells, beyond.0, beyond.1)
                is Corner) && in_other_house(houses, h, beyond.0, beyond.1))
            &&& lets_through(tile_at(cells, x, z), edge)
        },
{
    edges_point_to_their_side(edge, x, z);
}

/// The second cell of a wide doorway lies beside the first one along the wall, and there is one
/// just where one of the two cells beside it is a valid doorway too.
pub proof fn wide_doorways_run_along_the_wall(
    cells: Cells,
    houses: Seq<House>,
    h: int,
    x: int,
    z: int,
    edge: u8,
)
    requires
        is_edge(edge),
    ensures
        ({
            let flat = edge == MASK_NORTH || edge == MASK_SOUTH;
            let (ax, az) = if flat {
                (x + 1, z)
            } else {
                (x, z + 1)
            };
            let (bx, bz) = if flat {
                (x - 1, z)
            } else {
                (x, z - 1)
            };
            let found = companion(cells, houses, h, x, z, edge);
            &&& found is Some <==> valid_site(cells, houses, h, ax, az, edge) || valid_site(
                cells,
                houses,
                h,
                bx,
                bz,
                edge,
            )
            &&& found matches Some(c) ==> (c == (ax, az) || c == (bx, bz)) && valid_site(
                cells,
                houses,
                h,
                c.0,
                c.1,
                edge,
            )
        }),
{
}

/// Inside a house one steps to a neighbour just where no slab stands on the edge between the
/// two, on either side of it, and neither of them is void.
pub proof fn slabs_part_neighbours(cells: Cells, house: House, a: Tile, b: Tile, edge: u8)
    requires
        is_edge(edge),
        (b.0 as int, b.1 as int) == across(a.0 as int, a.1 as int, edge),
    ensures
        edge_towards(a, b) == edge,
        edge_towards(b, a) == facing_edge(edge),
        passable_edge(cells, house, a, b) <==> {
            let (here, there) = (
                tile_at(cells, a.0 as int, a.1 as int),
                tile_at(cells, b.0 as int, b.1 as int),
            );
            &&& house.has(b.0 as int, b.1 as int)
            &&& here != DraftTile::Void
            &&& there != DraftTile::Void
            &&& !slab_on(here, edge)
            &&& !slab_on(there, facing_edge(edge))
        },
{
    lemma_single(0, edge, edge);
    lemma_single(0, facing_edge(edge), facing_edge(edge));
}

/// The edge in the direction that a lamp looks in.
pub open spec fn edge_of(facing: LampFacing) -> u8 {
    match facing {
        LampFacing::North => MASK_NORTH,
        LampFacing::South => MASK_SOUTH,
        LampFacing::East => MASK_EAST,
        LampFacing::West => MASK_WEST,
    }
}

/// An inner lamp hangs on the slab that it looks out from: the wall has a slab on the edge
/// towards passable floor of the house.
pub proof fn inner_lamps_look_into_the_house(
    cells: Cells,
    house: House,
    x: int,
    z: int,
    facing: LampFacing,
)
    ensures
        inner_lamp(cells, house, x, z, facing) <==> {
            let ahead = across(x, z, edge_of(facing));
            &&& slab_on(tile_at(cells, x, z), edge_of(facing))
            &&& tile_at(cells, ahead.0, ahead.1) is Open || tile_at(cells, ahead.0, ahead.1) is Charger
            &&& house.has(ahead.0, ahead.1)
        },
{
}

/// An outer lamp stands on road close to the house and looks at a wall whose slab faces it.
pub proof fn outer_lamps_look_at_a_wall(
    cells: Cells,
    house: House,
    x: int,
    z: int,
    facing: LampFacing,
)
    ensures
        outer_lamp(cells, house, x, z, facing) <==> {
            let ahead = across(x, z, edge_of(facing));
            &&& house.x0 - 2 <= x <= house.x1 + 2
            &&& house.z0 - 2 <= z <= house.z1 + 2
            &&& tile_at(cells, x, z) == DraftTile::Open
            &&& !house.has(x, z)
            &&& slab_on(tile_at(cells, ahead.0, ahead.1), facing_edge(edge_of(facing)))
        },
{
}

} // verus!
