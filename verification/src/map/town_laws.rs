//! What the plan of a town means for whoever walks it, and how cells and their tokens go
//! together.
use vstd::prelude::*;

use crate::map::neighborhood::{
    alley_between, as_planned, border_plan, house_plan, middle_door, rooms_fit, street_plan,
    PlanCell, Plot, Rooms,
};
use crate::map::world_map::{
    cell_chars, facing_char, facing_of_char, mask_char, mask_of_char, passable, valid_mask, CellType,
    ChargerFacing, TileStyle, MASK_EAST, MASK_NORTH, MASK_SOUTH, MASK_WEST,
};

verus! {

/// Whether the planned cell has a slab on the edge.
pub open spec fn planned_slab(plan: PlanCell, edge: u8) -> bool {
    match plan {
        PlanCell::Walls(bits) => bits & edge != 0,
        _ => false,
    }
}

proof fn lemma_edges(b: u8)
    by (bit_vector)
    ensures
        (b & 1 != 0) == (b % 2 == 1),
        (b & 2 != 0) == ((b / 2) % 2 == 1),
        (b & 4 != 0) == ((b / 4) % 2 == 1),
        (b & 8 != 0) == ((b / 8) % 2 == 1),
{
}

/// A house is closed all round: on the border of its plot stands a slab on every outward edge,
/// except at the door, which is road in the middle of the south side.
pub proof fn outer_walls_close_the_house(p: Plot, rooms: Rooms, x: int, y: int)
    requires
        p.fits(),
        p.holds(x, y),
        !p.inside(x, y),
    ensures
        ({
            let plan = house_plan(p, rooms, x, y);
            let door = y == p.bottom() && x == (p.x0 + p.right()) / 2;
            &&& plan == PlanCell::Road <==> door
            &&& planned_slab(plan, MASK_NORTH) <==> y == p.y0
            &&& planned_slab(plan, MASK_SOUTH) <==> y == p.y0 + p.h - 1 && !door
            &&& planned_slab(plan, MASK_EAST) <==> x == p.x0 + p.w - 1
            &&& planned_slab(plan, MASK_WEST) <==> x == p.x0
            &&& plan != PlanCell::Void
        }),
{
    let plan = border_plan(p, x, y);
    if let PlanCell::Walls(bits) = plan {
        lemma_edges(bits);
    }
}

/// Whether a slab stands between a cell and the next one to the east.
pub open spec fn shut_east(p: Plot, rooms: Rooms, x: int, y: int) -> bool {
    planned_slab(house_plan(p, rooms, x, y), MASK_EAST) || planned_slab(
        house_plan(p, rooms, x + 1, y),
        MASK_WEST,
    )
}

/// Whether a slab stands between a cell and the next one to the south.
pub open spec fn shut_south(p: Plot, rooms: Rooms, x: int, y: int) -> bool {
    planned_slab(house_plan(p, rooms, x, y), MASK_SOUTH) || planned_slab(
        house_plan(p, rooms, x, y + 1),
        MASK_NORTH,
    )
}

/// Partitions part the rooms, and their doors join them: inside a house the way east is shut
/// just along the column of the partition, but for its door; the way south is shut just along
/// the row of the partition, but for its door.
pub proof fn partitions_part_the_rooms(p: Plot, rooms: Rooms, x: int, y: int)
    requires
        p.fits(),
        rooms_fit(p, rooms),
        p.inside(x, y),
    ensures
        p.inside(x + 1, y) ==> (shut_east(p, rooms, x, y) <==> match rooms {
            Rooms::TwoVertical { wall_x, door_y } => x == wall_x && y != door_y,
            Rooms::TwoHorizontal { wall_y, door_x } => false,
            Rooms::ThreeEl { wall_x, door_y, wall_y, door_x } => x == wall_x && y != door_y,
            Rooms::FourQuad { wall_x, door_y, wall_y, door_x } => x == wall_x && y != door_y,
        }),
        p.inside(x, y + 1) ==> (shut_south(p, rooms, x, y) <==> match rooms {
            Rooms::TwoVertical { wall_x, door_y } => false,
            Rooms::TwoHorizontal { wall_y, door_x } => y == wall_y && x != door_x,
            Rooms::ThreeEl { wall_x, door_y, wall_y, door_x } => y == wall_y && x > wall_x && x
                != door_x,
            Rooms::FourQuad { wall_x, door_y, wall_y, door_x } => y == wall_y && x != door_x,
        }),
        house_plan(p, rooms, x, y) != PlanCell::Void,
{
    assert(1u8 & 1u8 != 0 && 1u8 & 2u8 == 0 && 1u8 & 4u8 == 0 && 1u8 & 8u8 == 0 && 2u8 & 1u8 == 0
        && 2u8 & 2u8 != 0 && 2u8 & 4u8 == 0 && 2u8 & 8u8 == 0 && 4u8 & 1u8 == 0 && 4u8 & 2u8 == 0
        && 4u8 & 4u8 != 0 && 4u8 & 8u8 == 0 && 8u8 & 1u8 == 0 && 8u8 & 2u8 == 0 && 8u8 & 4u8 == 0
        && 8u8 & 8u8 != 0) by (bit_vector);
    assert(6u8 & 1u8 == 0 && 6u8 & 2u8 != 0 && 6u8 & 4u8 != 0 && 6u8 & 8u8 == 0 && 10u8 & 1u8 == 0
        && 10u8 & 2u8 != 0 && 10u8 & 4u8 == 0 && 10u8 & 8u8 != 0) by (bit_vector);
}

/// The door of a partition lies as near to the middle as the two rows next to the outer walls
/// allow.
pub proof fn partition_doors_lie_in_the_middle(start: int, length: int)
    requires
        length >= 8,
    ensures
        start + 2 <= middle_door(start, length) <= start + length - 3,
        -2 <= 2 * (middle_door(start, length) - start) - length + 2 <= 1,
{
}

/// Plots with an alley between them have at least two free columns or rows between their cells.
pub proof fn alleys_are_two_cells_wide(a: Plot, b: Plot, x: int, y: int, u: int, w: int)
    requires
        a.fits(),
        b.fits(),
        alley_between(a, b),
        a.holds(x, y),
        b.holds(u, w),
    ensures
        u - x > 2 || w - y > 2,
{
}

/// Streets fill the town, a ring of void two cells wide lies around it.
pub proof fn streets_fill_the_town(x: int, y: int)
    ensures
        street_plan(x, y) == PlanCell::Road <==> 2 <= x < 64 - 2 && 2 <= y < 64 - 2,
        street_plan(x, y) == PlanCell::Void <==> !(2 <= x < 64 - 2 && 2 <= y < 64 - 2),
{
}

/// What is built as planned can be walked just where road is planned.
pub proof fn planned_road_is_walked(cell: CellType, plan: PlanCell)
    requires
        as_planned(cell, plan),
    ensures
        passable(cell) <==> plan == PlanCell::Road,
        cell == CellType::Road <==> plan == PlanCell::Road,
        cell == CellType::Void <==> plan == PlanCell::Void,
        cell is Wall <==> plan is Walls,
        cell matches CellType::Wall(mask) ==> plan == PlanCell::Walls(mask.edges()),
{
}

/// Only road and the stations on it are walked; walls, pillars and void are not.
pub proof fn walls_and_void_are_not_walked(cell: CellType)
    ensures
        passable(cell) <==> !(cell is Void) && !(cell is Wall) && !(cell is Corner),
{
}

/// Each wall letter stands for one set of edges, and the letters of single edges are the
/// initials of the directions.
pub proof fn wall_letters_name_their_edges(bits: u8, c: char)
    requires
        valid_mask(bits),
    ensures
        mask_of_char(mask_char(bits)) == bits,
        mask_char(bits) == c <==> mask_of_char(c) == bits,
        mask_char(MASK_NORTH) == 'n',
        mask_char(MASK_SOUTH) == 's',
        mask_char(MASK_EAST) == 'e',
        mask_char(MASK_WEST) == 'w',
        mask_char(bits) == 'h' <==> bits == MASK_NORTH | MASK_SOUTH,
        mask_char(bits) == 'v' <==> bits == MASK_EAST | MASK_WEST,
        mask_char(bits) == 'o' <==> bits == MASK_NORTH | MASK_SOUTH | MASK_EAST | MASK_WEST,
{
    assert(1u8 | 2u8 == 3u8 && 4u8 | 8u8 == 12u8 && 1u8 | 2u8 | 4u8 | 8u8 == 15u8) by (bit_vector);
}

/// The letters of facings are the initials of the directions, and are read back.
pub proof fn facing_letters_are_initials(facing: ChargerFacing, c: char)
    ensures
        facing_of_char(facing_char(facing)) == Some(facing),
        facing_of_char(c) == Some(facing) <==> facing_char(facing) == c,
        facing_char(ChargerFacing::North) == 'n',
        facing_char(ChargerFacing::South) == 's',
        facing_char(ChargerFacing::East) == 'e',
        facing_char(ChargerFacing::West) == 'w',
{
}

/// The first letter of a token tells the kind of cell.
pub proof fn tokens_tell_the_kind(cell: CellType)
    ensures
        cell_chars(cell).len() == 2,
        cell_chars(cell)[0] == '.' <==> cell is Void,
        cell_chars(cell)[0] == '_' <==> cell is Road,
        cell_chars(cell)[0] == 'w' <==> cell is Wall,
        cell_chars(cell)[0] == 'c' <==> cell is Corner,
        cell_chars(cell)[0] == 'p' <==> cell is Charger,
        cell_chars(cell)[0] == 'd' <==> cell is PartsDepot,
        cell matches CellType::Wall(mask) ==> cell_chars(cell)[1] == mask_char(mask.edges()),
        cell matches CellType::Charger(f) ==> cell_chars(cell)[1] == facing_char(f),
        cell matches CellType::PartsDepot(f) ==> cell_chars(cell)[1] == facing_char(f),
{
}

/// Different styles have different tokens.
pub proof fn style_tokens_are_unambiguous(a: TileStyle, b: TileStyle)
    ensures
        a.chars().len() == 2,
        a.chars() == b.chars() ==> a == b,
        a.chars()[0] == 'f' <==> a == TileStyle::FloorGlass || a == TileStyle::FloorPavement || a
            == TileStyle::FloorMarble,
        a.chars()[1] == 'g' <==> a == TileStyle::FloorGlass || a == TileStyle::WallGlass,
{
    assert(a.chars()[0] == a.chars()[0] && a.chars()[1] == a.chars()[1]);
    assert(b.chars()[0] == b.chars()[0] && b.chars()[1] == b.chars()[1]);
}

} // verus!
