//! Small towns: blocks of 64 by 64 tiles with a ring of void, streets, and rectangular houses
//! with partitions and door gaps.
use rand::rngs::StdRng;
use vstd::prelude::*;

use crate::map::hypermap::{floor_div, floor_mod, ChunkCoord};
use crate::map::world_map::{
    CellType, WallMask, MASK_EAST, MASK_NORTH, MASK_SOUTH, MASK_WEST,
};
use crate::rng;

verus! {

/// Tiles per block edge.
pub const BLOCK_SIZE: i32 = 64;

/// Void around the town.
pub const PROCEDURAL_VOID_MARGIN: i32 = 2;

/// Width of the alleys between plots.
pub const PROCEDURAL_ALLEY: i32 = 2;

/// Side of the square in the middle of a block inside which the camera changes nothing.
pub const BLOCK_DEAD_ZONE: i32 = 20;

const BLOCK_CELLS: usize = 4096;

/// A place inside one block.
#[derive(Debug, Clone, Copy, PartialEq, Eq, Structural)]
pub struct BlockLocal {
    pub x: u8,
    pub y: u8,
}

impl BlockLocal {
    pub fn new(x: u8, y: u8) -> (local: Self)
        ensures
            local == (BlockLocal { x, y }),
    {
        BlockLocal { x, y }
    }
}

/// The block that holds a world tile, and the tile's place in it.
pub fn world_to_block_local(world_x: i32, world_y: i32) -> (split: (ChunkCoord, BlockLocal))
    ensures
        split.0.x == world_x as int / 64,
        split.0.y == world_y as int / 64,
        split.1.x == world_x as int % 64,
        split.1.y == world_y as int % 64,
        split.0.x * 64 + split.1.x == world_x,
        split.0.y * 64 + split.1.y == world_y,
{
    let block = ChunkCoord::new(
        floor_div(world_x, BLOCK_SIZE),
        floor_div(world_y, BLOCK_SIZE),
    );
    let local = BlockLocal::new(
        floor_mod(world_x, BLOCK_SIZE) as u8,
        floor_mod(world_y, BLOCK_SIZE) as u8,
    );
    (block, local)
}

/// West or east of the camera.
#[derive(Debug, Clone, Copy, PartialEq, Eq, Structural)]
pub enum HorizontalSide {
    West,
    East,
}

/// The side of the block that is nearer; in the middle the side stays.
pub fn select_horizontal_side(local_x: u8, current: HorizontalSide) -> (side: HorizontalSide)
    requires
        local_x < 64,
    ensures
        side == if 2 * local_x < 63 {
            HorizontalSide::West
        } else {
            HorizontalSide::East
        },
{
    let distance_to_west: i32 = local_x as i32;
    let distance_to_east: i32 = BLOCK_SIZE - 1 - local_x as i32;
    if distance_to_west < distance_to_east {
        HorizontalSide::West
    } else if distance_to_east < distance_to_west {
        HorizontalSide::East
    } else {
        current
    }
}

/// The blocks to show: the camera's, the one on its nearer side, and the ones north of both.
pub fn target_blocks_for(center: ChunkCoord, side: HorizontalSide) -> (targets: Vec<ChunkCoord>)
    requires
        i32::MIN < center.x < i32::MAX,
        i32::MIN < center.y,
    ensures
        targets@ == ({
            let x = match side {
                HorizontalSide::West => center.x - 1,
                HorizontalSide::East => center.x + 1,
            } as i32;
            let y = (center.y - 1) as i32;
            seq![
                center,
                ChunkCoord { x: center.x, y },
                ChunkCoord { x, y: center.y },
                ChunkCoord { x, y },
            ]
        }),
        targets@.no_duplicates(),
{
    let x: i32 = match side {
        HorizontalSide::West => center.x - 1,
        HorizontalSide::East => center.x + 1,
    };
    let y: i32 = center.y - 1;
    let mut targets: Vec<ChunkCoord> = Vec::new();
    targets.push(center);
    targets.push(ChunkCoord::new(center.x, y));
    targets.push(ChunkCoord::new(x, center.y));
    targets.push(ChunkCoord::new(x, y));
    targets
}

/// Whether a place lies in the middle square of its block.
pub fn is_in_block_dead_zone(local: BlockLocal) -> (inside: bool)
    ensures
        inside == (22 <= local.x < 42 && 22 <= local.y < 42),
{
    let center: i32 = BLOCK_SIZE / 2;
    let half: i32 = BLOCK_DEAD_ZONE / 2;
    let (min, max): (i32, i32) = (center - half, center + half);
    let (lx, ly): (i32, i32) = (local.x as i32, local.y as i32);
    lx >= min && lx < max && ly >= min && ly < max
}

/// The seed of a block: its coordinates, spread over all bits.
pub fn hash_chunk_seed(coord: ChunkCoord) -> (seed: u64)
    ensures
        seed == (coord.x as u64).wrapping_mul(0x9E37_79B9_85F3_7D87) ^ (coord.y as u64).wrapping_mul(
            0xC2B2_AE3D_27D4_F4F5,
        ) ^ 0xA32D_192E_2AA3_4C13,
{
    let x: u64 = coord.x as u64;
    let y: u64 = coord.y as u64;
    x.wrapping_mul(0x9E37_79B9_85F3_7D87) ^ y.wrapping_mul(0xC2B2_AE3D_27D4_F4F5)
        ^ 0xA32D_192E_2AA3_4C13
}

/// The ground floor of one block.
#[derive(Debug)]
pub struct Block {
    cells: Vec<CellType>,
}

/// Whether a place lies in a block.
pub open spec fn in_block(x: int, y: int) -> bool {
    0 <= x < 64 && 0 <= y < 64
}

impl Block {
    pub closed spec fn wf(self) -> bool {
        self.cells@.len() == BLOCK_CELLS
    }

    /// The cell at a place.
    pub closed spec fn at(self, x: int, y: int) -> CellType {
        self.cells@[y * 64 + x]
    }

    /// A block of one kind of cell.
    pub fn new(fill: CellType) -> (block: Self)
        ensures
            block.wf(),
            forall|x: int, y: int| in_block(x, y) ==> #[trigger] block.at(x, y) == fill,
    {
        let mut cells: Vec<CellType> = Vec::new();
        let mut i: usize = 0;
        while i < BLOCK_CELLS
            invariant
                i <= BLOCK_CELLS,
                cells@.len() == i,
                forall|k: int| 0 <= k < i ==> cells@[k] == fill,
            decreases BLOCK_CELLS - i,
        {
            cells.push(fill);
            i += 1;
        }
        Block { cells }
    }

    pub fn get(&self, x: i32, y: i32) -> (cell: CellType)
        requires
            self.wf(),
            in_block(x as int, y as int),
        ensures
            cell == self.at(x as int, y as int),
    {
        self.cells[(y * 64 + x) as usize]
    }

    fn set_cell(&mut self, x: i32, y: i32, cell: CellType)
        requires
            old(self).wf(),
            in_block(x as int, y as int),
        ensures
            final(self).wf(),
            forall|a: int, b: int|
                in_block(a, b) ==> #[trigger] final(self).at(a, b) == if a == x && b == y {
                    cell
                } else {
                    old(self).at(a, b)
                },
    {
        self.cells.set((y * 64 + x) as usize, cell);
    }
}

/// What the plan of a town shows at a place.
pub enum PlanCell {
    Void,
    Road,
    /// Wall slabs on these edges.
    Walls(u8),
}

/// The cell is as planned.
pub open spec fn as_planned(cell: CellType, plan: PlanCell) -> bool {
    match plan {
        PlanCell::Void => cell is Void,
        PlanCell::Road => cell is Road,
        PlanCell::Walls(bits) => cell matches CellType::Wall(mask) && mask.edges() == bits,
    }
}

fn wall_cell(bits: u8) -> (cell: CellType)
    requires
        0 < bits <= 15,
    ensures
        as_planned(cell, PlanCell::Walls(bits)),
{
    match WallMask::from_bits(bits) {
        Some(mask) => CellType::Wall(mask),
        None => CellType::Road,
    }
}

/// The ground of one house.
#[derive(Debug, Clone, Copy, PartialEq, Eq, Structural)]
pub struct Plot {
    pub x0: i32,
    pub y0: i32,
    pub w: i32,
    pub h: i32,
}

impl Plot {
    /// Last column.
    pub open spec fn right(self) -> int {
        self.x0 + self.w - 1
    }

    /// Last row.
    pub open spec fn bottom(self) -> int {
        self.y0 + self.h - 1
    }

    /// The plot lies in the block and has room for a house.
    pub open spec fn fits(self) -> bool {
        &&& 0 <= self.x0 && 0 <= self.y0
        &&& 8 <= self.w && 8 <= self.h
        &&& self.x0 + self.w <= 64 && self.y0 + self.h <= 64
    }

    pub open spec fn holds(self, x: int, y: int) -> bool {
        self.x0 <= x <= self.right() && self.y0 <= y <= self.bottom()
    }

    /// Inside the outer walls.
    pub open spec fn inside(self, x: int, y: int) -> bool {
        self.x0 < x < self.right() && self.y0 < y < self.bottom()
    }

    pub fn x1(self) -> (x: i32)
        requires
            self.fits(),
        ensures
            x == self.right(),
    {
        self.x0 + self.w - 1
    }

    pub fn y1(self) -> (y: i32)
        requires
            self.fits(),
        ensures
            y == self.bottom(),
    {
        self.y0 + self.h - 1
    }
}

/// How the inside of a house is divided.
#[derive(Debug, Clone, Copy, PartialEq, Eq, Structural)]
pub enum Rooms {
    /// A wall from north to south.
    TwoVertical { wall_x: i32, door_y: i32 },
    /// A wall from west to east.
    TwoHorizontal { wall_y: i32, door_x: i32 },
    /// A wall from north to south, and one in the east wing.
    ThreeEl { wall_x: i32, door_y: i32, wall_y: i32, door_x: i32 },
    /// Two walls that cross.
    FourQuad { wall_x: i32, door_y: i32, wall_y: i32, door_x: i32 },
}

/// Where the door of a single partition is along it: in the middle of the house, but not in
/// the two rows next to the outer walls.
pub open spec fn middle_door(start: int, length: int) -> int {
    let middle = start + length / 2 - 1;
    let low = if middle > start + 2 {
        middle
    } else {
        start + 2
    };
    if low < start + length - 3 {
        low
    } else {
        start + length - 3
    }
}

/// The partitions stand where a house of that size may have them.
pub open spec fn rooms_fit(p: Plot, rooms: Rooms) -> bool {
    match rooms {
        Rooms::TwoVertical { wall_x, door_y } => {
            &&& p.x0 + 3 <= wall_x <= p.x0 + p.w - 4
            &&& door_y == middle_door(p.y0 as int, p.h as int)
        },
        Rooms::TwoHorizontal { wall_y, door_x } => {
            &&& p.y0 + 3 <= wall_y <= p.y0 + p.h - 4
            &&& door_x == middle_door(p.x0 as int, p.w as int)
        },
        Rooms::ThreeEl { wall_x, door_y, wall_y, door_x } => {
            &&& p.w >= 12 && p.h >= 10
            &&& wall_x == p.x0 + (p.w - 2) / 3
            &&& p.y0 + 2 <= door_y <= p.bottom() - 2
            &&& p.y0 + 3 <= wall_y <= p.bottom() - 3
            &&& wall_x + 2 <= door_x <= p.right() - 2
        },
        Rooms::FourQuad { wall_x, door_y, wall_y, door_x } => {
            &&& p.w >= 12 && p.h >= 12
            &&& wall_x == p.x0 + (p.w - 2) / 2
            &&& wall_y == p.y0 + (p.h - 2) / 2
            &&& p.y0 + 2 <= door_y < wall_y
            &&& p.x0 + 2 <= door_x < wall_x
        },
    }
}

/// The slabs of the outer walls at a place on the border of a plot.
pub open spec fn border_edges(p: Plot, x: int, y: int) -> u8 {
    ((if y == p.y0 {
        1int
    } else {
        0
    }) + (if y == p.bottom() {
        2int
    } else {
        0
    }) + (if x == p.right() {
        4int
    } else {
        0
    }) + (if x == p.x0 {
        8int
    } else {
        0
    })) as u8
}

/// The outer walls, with a door in the middle of the south side.
pub open spec fn border_plan(p: Plot, x: int, y: int) -> PlanCell {
    if y == p.bottom() && x == (p.x0 + p.right()) / 2 {
        PlanCell::Road
    } else {
        PlanCell::Walls(border_edges(p, x, y))
    }
}

/// A double wall from north to south: slabs on the edge between two columns.
pub open spec fn in_vertical(wall_x: int, door_y: int, x: int, y: int) -> bool {
    y != door_y && (x == wall_x || x == wall_x + 1)
}

/// The slab of such a wall.
pub open spec fn vertical_edge(wall_x: int, x: int) -> u8 {
    if x == wall_x {
        MASK_EAST
    } else {
        MASK_WEST
    }
}

/// The partitions of a house.
pub open spec fn rooms_plan(rooms: Rooms, x: int, y: int) -> PlanCell {
    match rooms {
        Rooms::TwoVertical { wall_x, door_y } => if in_vertical(wall_x as int, door_y as int, x, y) {
            PlanCell::Walls(vertical_edge(wall_x as int, x))
        } else {
            PlanCell::Road
        },
        Rooms::TwoHorizontal { wall_y, door_x } => if y == wall_y && x != door_x {
            PlanCell::Walls(MASK_SOUTH)
        } else {
            PlanCell::Road
        },
        Rooms::ThreeEl { wall_x, door_y, wall_y, door_x } => if y == wall_y && x > wall_x && x
            != door_x {
            PlanCell::Walls(MASK_SOUTH)
        } else if in_vertical(wall_x as int, door_y as int, x, y) {
            PlanCell::Walls(vertical_edge(wall_x as int, x))
        } else {
            PlanCell::Road
        },
        Rooms::FourQuad { wall_x, door_y, wall_y, door_x } => if in_vertical(
            wall_x as int,
            door_y as int,
            x,
            y,
        ) {
            PlanCell::Walls(
                (vertical_edge(wall_x as int, x) + (if y == wall_y {
                    MASK_SOUTH as int
                } else {
                    0
                })) as u8,
            )
        } else if y == wall_y && x != door_x {
            PlanCell::Walls(MASK_SOUTH)
        } else {
            PlanCell::Road
        },
    }
}

/// The plan of a house.
pub open spec fn house_plan(p: Plot, rooms: Rooms, x: int, y: int) -> PlanCell {
    if p.inside(x, y) {
        rooms_plan(rooms, x, y)
    } else {
        border_plan(p, x, y)
    }
}

/// Removes one slab of a wall; a cell without slabs becomes road.
fn clear_wall_edge_bit(block: &mut Block, x: i32, y: i32, bit: u8)
    requires
        old(block).wf(),
        in_block(x as int, y as int),
        bit == 1 || bit == 2 || bit == 4 || bit == 8,
    ensures
        final(block).wf(),
        forall|a: int, b: int|
            in_block(a, b) && !(a == x && b == y) ==> #[trigger] final(block).at(a, b) == old(
                block,
            ).at(a, b),
        match old(block).at(x as int, y as int) {
            CellType::Wall(mask) => as_planned(
                final(block).at(x as int, y as int),
                if mask.edges() & !bit == 0 {
                    PlanCell::Road
                } else {
                    PlanCell::Walls(mask.edges() & !bit)
                },
            ),
            other => final(block).at(x as int, y as int) == other,
        },
{
    if let CellType::Wall(mask) = block.get(x, y) {
        let bits: u8 = mask.bits();
        let rest: u8 = bits & !bit;
        assert(bits & !bit <= bits) by (bit_vector);
        let next = if rest == 0 {
            CellType::Road
        } else {
            wall_cell(rest)
        };
        block.set_cell(x, y, next);
    }
}

/// Clears a plot and puts up its outer walls, with a door in the middle of the south side.
fn stamp_rect_perimeter(block: &mut Block, p: Plot)
    requires
        old(block).wf(),
        p.fits(),
    ensures
        final(block).wf(),
        forall|x: int, y: int|
            in_block(x, y) ==> {
                if !p.holds(x, y) {
                    #[trigger] final(block).at(x, y) == old(block).at(x, y)
                } else if p.inside(x, y) {
                    final(block).at(x, y) is Road
                } else {
                    as_planned(final(block).at(x, y), border_plan(p, x, y))
                }
            },
{
    let (x1, y1): (i32, i32) = (p.x1(), p.y1());
    let mut y: i32 = p.y0;
    while y <= y1
        invariant
            p.fits(),
            x1 == p.right(),
            y1 == p.bottom(),
            p.y0 <= y <= y1 + 1,
            block.wf(),
            forall|a: int, b: int|
                in_block(a, b) ==> {
                    if p.holds(a, b) && b < y {
                        #[trigger] block.at(a, b) is Road
                    } else {
                        block.at(a, b) == old(block).at(a, b)
                    }
                },
        decreases y1 + 1 - y,
    {
        let mut x: i32 = p.x0;
        while x <= x1
            invariant
                p.fits(),
                x1 == p.right(),
                y1 == p.bottom(),
                p.y0 <= y <= y1,
                p.x0 <= x <= x1 + 1,
                block.wf(),
                forall|a: int, b: int|
                    in_block(a, b) ==> {
                        if p.holds(a, b) && (b < y || (b == y && a < x)) {
                            #[trigger] block.at(a, b) is Road
                        } else {
                            block.at(a, b) == old(block).at(a, b)
                        }
                    },
            decreases x1 + 1 - x,
        {
            block.set_cell(x, y, CellType::Road);
            x += 1;
        }
        y += 1;
    }
    let ghost cleared = *block;
    block.set_cell(p.x0, p.y0, wall_cell(MASK_NORTH + MASK_WEST));
    block.set_cell(x1, p.y0, wall_cell(MASK_NORTH + MASK_EAST));
    block.set_cell(p.x0, y1, wall_cell(MASK_SOUTH + MASK_WEST));
    block.set_cell(x1, y1, wall_cell(MASK_SOUTH + MASK_EAST));
    let mut x: i32 = p.x0 + 1;
    while x < x1
        invariant
            p.fits(),
            x1 == p.right(),
            y1 == p.bottom(),
            p.x0 < x <= x1,
            block.wf(),
            forall|a: int, b: int|
                in_block(a, b) ==> {
                    if (b == p.y0 || b == y1) && (a == p.x0 || a == x1 || (p.x0 < a < x)) {
                        as_planned(
                            #[trigger] block.at(a, b),
                            PlanCell::Walls(border_edges(p, a, b)),
                        )
                    } else {
                        block.at(a, b) == cleared.at(a, b)
                    }
                },
        decreases x1 - x,
    {
        block.set_cell(x, p.y0, wall_cell(MASK_NORTH));
        block.set_cell(x, y1, wall_cell(MASK_SOUTH));
        x += 1;
    }
    let mut y: i32 = p.y0 + 1;
    while y < y1
        invariant
            p.fits(),
            x1 == p.right(),
            y1 == p.bottom(),
            p.y0 < y <= y1,
            block.wf(),
            forall|a: int, b: int|
                in_block(a, b) ==> {
                    if p.holds(a, b) && (b == p.y0 || b == y1 || ((a == p.x0 || a == x1) && b
                        < y)) {
                        as_planned(
                            #[trigger] block.at(a, b),
                            PlanCell::Walls(border_edges(p, a, b)),
                        )
                    } else {
                        block.at(a, b) == cleared.at(a, b)
                    }
                },
        decreases y1 - y,
    {
        block.set_cell(p.x0, y, wall_cell(MASK_WEST));
        block.set_cell(x1, y, wall_cell(MASK_EAST));
        y += 1;
    }
    let door_x: i32 = (p.x0 + x1) / 2;
    assert(border_edges(p, door_x as int, y1 as int) == MASK_SOUTH);
    assert(2u8 & !2u8 == 0u8) by (bit_vector);
    clear_wall_edge_bit(block, door_x, y1, MASK_SOUTH);
}

/// Puts up a double wall from north to south, with a door in it.
fn stamp_vertical(block: &mut Block, p: Plot, wall_x: i32, door_y: i32)
    requires
        old(block).wf(),
        p.fits(),
        p.x0 < wall_x < p.right() - 1,
    ensures
        final(block).wf(),
        forall|x: int, y: int|
            in_block(x, y) ==> {
                if p.inside(x, y) && in_vertical(wall_x as int, door_y as int, x, y) {
                    as_planned(
                        #[trigger] final(block).at(x, y),
                        PlanCell::Walls(vertical_edge(wall_x as int, x)),
                    )
                } else {
                    final(block).at(x, y) == old(block).at(x, y)
                }
            },
{
    let y1: i32 = p.y1();
    let mut y: i32 = p.y0 + 1;
    while y < y1
        invariant
            p.fits(),
            y1 == p.bottom(),
            p.x0 < wall_x < p.right() - 1,
            p.y0 < y <= y1,
            block.wf(),
            forall|a: int, b: int|
                in_block(a, b) ==> {
                    if p.inside(a, b) && b < y && in_vertical(wall_x as int, door_y as int, a, b) {
                        as_planned(
                            #[trigger] block.at(a, b),
                            PlanCell::Walls(vertical_edge(wall_x as int, a)),
                        )
                    } else {
                        block.at(a, b) == old(block).at(a, b)
                    }
                },
        decreases y1 - y,
    {
        if y != door_y {
            block.set_cell(wall_x, y, wall_cell(MASK_EAST));
            block.set_cell(wall_x + 1, y, wall_cell(MASK_WEST));
        }
        y += 1;
    }
}

/// Puts up a wall from west to east between two columns, with a door in it.
fn stamp_horizontal(block: &mut Block, from: i32, to: i32, wall_y: i32, door_x: i32)
    requires
        old(block).wf(),
        0 <= from <= to <= 64,
        0 <= wall_y < 64,
    ensures
        final(block).wf(),
        forall|x: int, y: int|
            in_block(x, y) ==> {
                if from <= x < to && y == wall_y && x != door_x {
                    as_planned(#[trigger] final(block).at(x, y), PlanCell::Walls(MASK_SOUTH))
                } else {
                    final(block).at(x, y) == old(block).at(x, y)
                }
            },
{
    let mut x: i32 = from;
    while x < to
        invariant
            0 <= from <= x <= to <= 64,
            0 <= wall_y < 64,
            block.wf(),
            forall|a: int, b: int|
                in_block(a, b) ==> {
                    if from <= a < x && b == wall_y && a != door_x {
                        as_planned(#[trigger] block.at(a, b), PlanCell::Walls(MASK_SOUTH))
                    } else {
                        block.at(a, b) == old(block).at(a, b)
                    }
                },
        decreases to - x,
    {
        if x != door_x {
            block.set_cell(x, wall_y, wall_cell(MASK_SOUTH));
        }
        x += 1;
    }
}

/// Builds a house on a plot: outer walls with a south door, and the partitions. Nothing
/// outside the plot changes.
pub fn stamp_house(block: &mut Block, p: Plot, rooms: Rooms)
    requires
        old(block).wf(),
        p.fits(),
        rooms_fit(p, rooms),
    ensures
        final(block).wf(),
        forall|x: int, y: int|
            in_block(x, y) ==> {
                if p.holds(x, y) {
                    as_planned(#[trigger] final(block).at(x, y), house_plan(p, rooms, x, y))
                } else {
                    final(block).at(x, y) == old(block).at(x, y)
                }
            },
{
    stamp_rect_perimeter(block, p);
    match rooms {
        Rooms::TwoVertical { wall_x, door_y } => {
            stamp_vertical(block, p, wall_x, door_y);
        },
        Rooms::TwoHorizontal { wall_y, door_x } => {
            stamp_horizontal(block, p.x0 + 1, p.x1(), wall_y, door_x);
        },
        Rooms::ThreeEl { wall_x, door_y, wall_y, door_x } => {
            stamp_vertical(block, p, wall_x, door_y);
            stamp_horizontal(block, wall_x + 1, p.x1(), wall_y, door_x);
        },
        Rooms::FourQuad { wall_x, door_y, wall_y, door_x } => {
            stamp_vertical(block, p, wall_x, door_y);
            block.set_cell(wall_x, wall_y, wall_cell(MASK_SOUTH + MASK_EAST));
            block.set_cell(wall_x + 1, wall_y, wall_cell(MASK_SOUTH + MASK_WEST));
            stamp_horizontal(block, p.x0 + 1, wall_x, wall_y, door_x);
            stamp_horizontal(block, wall_x + 2, p.x1(), wall_y, door_x);
        },
    }
}

fn middle_of(start: i32, length: i32) -> (door: i32)
    requires
        0 <= start <= 64,
        8 <= length <= 64,
    ensures
        door == middle_door(start as int, length as int),
{
    let middle: i32 = start + length / 2 - 1;
    let low: i32 = if middle > start + 2 {
        middle
    } else {
        start + 2
    };
    if low < start + length - 3 {
        low
    } else {
        start + length - 3
    }
}

fn roll_two_vertical(rng: &mut StdRng, p: Plot) -> (rooms: Rooms)
    requires
        p.fits(),
    ensures
        rooms is TwoVertical,
        rooms_fit(p, rooms),
{
    let wall_x: i32 = p.x0 + 1 + rng::range(rng, 2, p.w - 5);
    Rooms::TwoVertical { wall_x, door_y: middle_of(p.y0, p.h) }
}

/// Rolls how a house is divided. Houses that are too small for more have two rooms.
pub fn roll_rooms(rng: &mut StdRng, p: Plot) -> (rooms: Rooms)
    requires
        p.fits(),
    ensures
        rooms_fit(p, rooms),
{
    let roll: i32 = rng::range(rng, 0, 3);
    if roll == 0 {
        roll_two_vertical(rng, p)
    } else if roll == 1 {
        let wall_y: i32 = p.y0 + 1 + rng::range(rng, 2, p.h - 5);
        Rooms::TwoHorizontal { wall_y, door_x: middle_of(p.x0, p.w) }
    } else if roll == 2 {
        if p.w < 12 || p.h < 10 {
            return roll_two_vertical(rng, p);
        }
        let wall_x: i32 = p.x0 + (p.w - 2) / 3;
        let door_y: i32 = rng::range(rng, p.y0 + 2, p.y1() - 2);
        let wall_y: i32 = rng::range(rng, p.y0 + 3, p.y1() - 3);
        let door_x: i32 = rng::range(rng, wall_x + 2, p.x1() - 2);
        Rooms::ThreeEl { wall_x, door_y, wall_y, door_x }
    } else {
        if p.w < 12 || p.h < 12 {
            return roll_two_vertical(rng, p);
        }
        let wall_x: i32 = p.x0 + (p.w - 2) / 2;
        let wall_y: i32 = p.y0 + (p.h - 2) / 2;
        let door_y: i32 = rng::range(rng, p.y0 + 2, wall_y - 1);
        let door_x: i32 = rng::range(rng, p.x0 + 2, wall_x - 1);
        Rooms::FourQuad { wall_x, door_y, wall_y, door_x }
    }
}

/// A house of the town.
#[derive(Debug, Clone, Copy, PartialEq, Eq, Structural)]
pub struct House {
    pub plot: Plot,
    pub rooms: Rooms,
}

/// The ground of a town: a ring of void around streets.
pub open spec fn street_plan(x: int, y: int) -> PlanCell {
    if x < 2 || y < 2 || x >= 62 || y >= 62 {
        PlanCell::Void
    } else {
        PlanCell::Road
    }
}

/// The plan of a town with the first `n` houses.
pub open spec fn town_plan(houses: Seq<House>, n: int, x: int, y: int) -> PlanCell
    decreases n,
{
    if n <= 0 {
        street_plan(x, y)
    } else if houses[n - 1].plot.holds(x, y) {
        house_plan(houses[n - 1].plot, houses[n - 1].rooms, x, y)
    } else {
        town_plan(houses, n - 1, x, y)
    }
}

/// One plot comes before the other, with an alley between them.
pub open spec fn alley_between(a: Plot, b: Plot) -> bool {
    a.x0 + a.w + 2 <= b.x0 || (a.x0 == b.x0 && a.y0 + a.h + 2 <= b.y0)
}

/// The houses stand on streets, apart from each other.
pub open spec fn well_placed(houses: Seq<House>) -> bool {
    &&& forall|i: int|
        0 <= i < houses.len() ==> {
            let h = #[trigger] houses[i];
            &&& h.plot.fits()
            &&& rooms_fit(h.plot, h.rooms)
            &&& 2 <= h.plot.x0 && 2 <= h.plot.y0
            &&& h.plot.x0 + h.plot.w <= 62 && h.plot.y0 + h.plot.h <= 62
        }
    &&& forall|i: int, j: int|
        0 <= i < j < houses.len() ==> alley_between(
            (#[trigger] houses[i]).plot,
            (#[trigger] houses[j]).plot,
        )
}

/// Lays the streets of a town and builds its houses.
pub fn build_town(houses: &Vec<House>) -> (block: Block)
    requires
        well_placed(houses@),
    ensures
        block.wf(),
        forall|x: int, y: int|
            in_block(x, y) ==> as_planned(
                #[trigger] block.at(x, y),
                town_plan(houses@, houses@.len() as int, x, y),
            ),
{
    let mut block = Block::new(CellType::Road);
    let mut y: i32 = 0;
    while y < BLOCK_SIZE
        invariant
            0 <= y <= 64,
            block.wf(),
            forall|a: int, b: int|
                in_block(a, b) ==> {
                    if b < y {
                        as_planned(#[trigger] block.at(a, b), street_plan(a, b))
                    } else {
                        block.at(a, b) is Road
                    }
                },
        decreases 64 - y,
    {
        let mut x: i32 = 0;
        while x < BLOCK_SIZE
            invariant
                0 <= y < 64,
                0 <= x <= 64,
                block.wf(),
                forall|a: int, b: int|
                    in_block(a, b) ==> {
                        if b < y || (b == y && a < x) {
                            as_planned(#[trigger] block.at(a, b), street_plan(a, b))
                        } else {
                            block.at(a, b) is Road
                        }
                    },
            decreases 64 - x,
        {
            let m: i32 = PROCEDURAL_VOID_MARGIN;
            if x < m || y < m || x >= BLOCK_SIZE - m || y >= BLOCK_SIZE - m {
                block.set_cell(x, y, CellType::Void);
            }
            x += 1;
        }
        y += 1;
    }
    let mut i: usize = 0;
    while i < houses.len()
        invariant
            i <= houses@.len(),
            well_placed(houses@),
            block.wf(),
            forall|a: int, b: int|
                in_block(a, b) ==> as_planned(
                    #[trigger] block.at(a, b),
                    town_plan(houses@, i as int, a, b),
                ),
        decreases houses@.len() - i,
    {
        let house = houses[i];
        stamp_house(&mut block, house.plot, house.rooms);
        i += 1;
    }
    block
}

/// A plot that was measured out, with the rooms of the house on it; without rooms it stays
/// empty.
#[derive(Debug, Clone, Copy, PartialEq, Eq, Structural)]
pub struct Lot {
    pub plot: Plot,
    pub rooms: Option<Rooms>,
}

impl Lot {
    /// Where the next lot of the column starts, beyond an alley.
    pub open spec fn next_row(self) -> int {
        self.plot.y0 + self.plot.h + 2
    }

    /// Where the next column starts, beyond an alley.
    pub open spec fn next_column(self) -> int {
        self.plot.x0 + self.plot.w + 2
    }

    /// The lot has a size that can be rolled and lies within the streets.
    pub open spec fn measured(self) -> bool {
        &&& 14 <= self.plot.w <= 20 && 12 <= self.plot.h <= 22
        &&& 2 <= self.plot.x0 && self.plot.x0 + self.plot.w <= 62
        &&& 2 <= self.plot.y0 && self.plot.y0 + self.plot.h <= 62
        &&& self.rooms matches Some(rooms) ==> rooms_fit(self.plot, rooms)
    }

    /// Not every height finds room below the lot: its column may end here.
    pub open spec fn ends_column(self) -> bool {
        self.next_row() + 22 > 62
    }

    /// Lot `b` is the next one: below this lot in its column, or the first one of the next
    /// column where this lot ends its own.
    pub open spec fn leads_to(self, b: Lot) -> bool {
        ||| b.plot.x0 == self.plot.x0 && b.plot.w == self.plot.w && b.plot.y0 == self.next_row()
        ||| self.ends_column() && b.plot.x0 == self.next_column() && b.plot.y0 == 2
    }
}

/// The lots follow each other from the corner of the streets, column by column.
pub open spec fn lots_in_columns(lots: Seq<Lot>) -> bool {
    &&& forall|i: int| 0 <= i < lots.len() ==> (#[trigger] lots[i]).measured()
    &&& lots.len() > 0 ==> lots[0].plot.x0 == 2 && lots[0].plot.y0 == 2
    &&& forall|i: int, j: int|
        0 <= i && j == i + 1 && j < lots.len() ==> (#[trigger] lots[i]).leads_to(
            #[trigger] lots[j],
        )
}

/// The lots divide the whole town: beyond the last one neither every height finds room below
/// nor every width beside it.
pub open spec fn surveyed(lots: Seq<Lot>) -> bool {
    &&& lots.len() > 0
    &&& lots_in_columns(lots)
    &&& lots.last().ends_column()
    &&& lots.last().next_column() + 20 > 62
}

/// The houses on the first `n` lots, in their order.
pub open spec fn built_on(lots: Seq<Lot>, n: nat) -> Seq<House>
    decreases n,
{
    if n == 0 {
        seq![]
    } else {
        let before = built_on(lots, (n - 1) as nat);
        match lots[n - 1].rooms {
            Some(rooms) => before.push(House { plot: lots[n - 1].plot, rooms }),
            None => before,
        }
    }
}

/// Measures out the lots of a town: columns of lots with alleys between them. Width, heights,
/// rooms and which lots stay empty are rolled.
pub fn roll_lots(rng: &mut StdRng) -> (lots: Vec<Lot>)
    ensures
        surveyed(lots@),
{
    let far: i32 = BLOCK_SIZE - PROCEDURAL_VOID_MARGIN;
    let mut lots: Vec<Lot> = Vec::new();
    let mut ox: i32 = PROCEDURAL_VOID_MARGIN;
    while ox + 10 < far
        invariant
            far == 62,
            2 <= ox <= 84,
            lots_in_columns(lots@),
            lots@.len() == 0 ==> ox == 2,
            lots@.len() > 0 ==> {
                &&& lots@.last().ends_column()
                &&& ox == lots@.last().next_column() || (ox > 62 && lots@.last().next_column() + 20
                    > 62)
            },
        decreases 84 - ox,
    {
        let plot_w: i32 = rng::range(rng, 14, 20);
        let mut oy: i32 = PROCEDURAL_VOID_MARGIN;
        let mut full: bool = false;
        let ghost before = lots@;
        while !full && oy + 10 < far
            invariant
                far == 62,
                2 <= ox < 52,
                2 <= oy <= 86,
                14 <= plot_w <= 20,
                lots_in_columns(lots@),
                before.len() == 0 ==> ox == 2,
                before.len() > 0 ==> before.last().ends_column() && ox
                    == before.last().next_column(),
                oy == 2 ==> lots@ == before,
                oy != 2 ==> lots@.len() > 0 && lots@.last().plot.x0 == ox && lots@.last().plot.w
                    == plot_w && lots@.last().next_row() == oy,
                full ==> ox + plot_w > 62 || oy + 22 > 62,
            decreases 86 - oy + (if full {
                0int
            } else {
                1int
            }),
        {
            let plot_h: i32 = rng::range(rng, 12, 22);
            if ox + plot_w > far || oy + plot_h > far {
                full = true;
            } else {
                let plot = Plot { x0: ox, y0: oy, w: plot_w, h: plot_h };
                let rooms = if rng::chance(rng, 22, 25) {
                    Some(roll_rooms(rng, plot))
                } else {
                    None
                };
                lots.push(Lot { plot, rooms });
                oy += plot_h + PROCEDURAL_ALLEY;
            }
        }
        ox += plot_w + PROCEDURAL_ALLEY;
    }
    lots
}

/// The houses on the lots that do not stay empty.
pub fn houses_on(lots: &Vec<Lot>) -> (houses: Vec<House>)
    ensures
        houses@ == built_on(lots@, lots@.len()),
{
    let mut houses: Vec<House> = Vec::new();
    let mut i: usize = 0;
    while i < lots.len()
        invariant
            i <= lots@.len(),
            houses@ == built_on(lots@, i as nat),
        decreases lots@.len() - i,
    {
        let lot = lots[i];
        if let Some(rooms) = lot.rooms {
            houses.push(House { plot: lot.plot, rooms });
        }
        i += 1;
    }
    houses
}

proof fn lemma_lots_apart(lots: Seq<Lot>, i: int, j: int)
    requires
        lots_in_columns(lots),
        0 <= i < j < lots.len(),
    ensures
        alley_between(lots[i].plot, lots[j].plot),
        lots[i].plot.x0 == lots[j].plot.x0 ==> lots[i].plot.w == lots[j].plot.w,
    decreases j,
{
    assert(lots[j - 1].leads_to(lots[j]));
    assert(lots[i].measured() && lots[j - 1].measured());
    if i < j - 1 {
        lemma_lots_apart(lots, i, j - 1);
    }
}

proof fn lemma_houses_apart(lots: Seq<Lot>, n: nat)
    requires
        lots_in_columns(lots),
        n <= lots.len(),
    ensures
        well_placed(built_on(lots, n)),
        forall|k: int|
            0 <= k < built_on(lots, n).len() ==> exists|m: int|
                0 <= m < n && (#[trigger] lots[m]).plot == (#[trigger] built_on(lots, n)[k]).plot,
    decreases n,
{
    if n > 0 {
        lemma_houses_apart(lots, (n - 1) as nat);
        let before = built_on(lots, (n - 1) as nat);
        let houses = built_on(lots, n);
        assert(lots[n - 1].measured());
        assert forall|k: int| 0 <= k < houses.len() implies exists|m: int|
            0 <= m < n && (#[trigger] lots[m]).plot == (#[trigger] houses[k]).plot by {
            if k < before.len() {
                let m = choose|m: int|
                    0 <= m < n - 1 && (#[trigger] lots[m]).plot == before[k].plot;
                assert(lots[m].plot == houses[k].plot);
            } else {
                assert(lots[n - 1].plot == houses[k].plot);
            }
        }
        assert forall|i: int, j: int| 0 <= i < j < houses.len() implies alley_between(
            (#[trigger] houses[i]).plot,
            (#[trigger] houses[j]).plot,
        ) by {
            assert(houses[i] == before[i]);
            if j < before.len() {
                assert(houses[j] == before[j]);
            } else {
                let m = choose|m: int|
                    0 <= m < n - 1 && (#[trigger] lots[m]).plot == before[i].plot;
                lemma_lots_apart(lots, m, n - 1);
            }
        }
    }
}

/// The houses on surveyed lots stand on streets, apart from each other.
pub proof fn surveyed_houses_are_well_placed(lots: Seq<Lot>)
    requires
        surveyed(lots),
    ensures
        well_placed(built_on(lots, lots.len())),
{
    lemma_houses_apart(lots, lots.len());
}

/// Whether the houses are those on lots that divide the whole town.
pub open spec fn settles(houses: Seq<House>) -> bool {
    exists|lots: Seq<Lot>| #[trigger] surveyed(lots) && houses == built_on(lots, lots.len())
}

/// Rolls the houses of a town: lots in columns that divide the whole town, a house on each
/// lot but those that a roll leaves empty.
pub fn roll_houses(rng: &mut StdRng) -> (houses: Vec<House>)
    ensures
        settles(houses@),
        well_placed(houses@),
{
    let lots = roll_lots(rng);
    proof {
        surveyed_houses_are_well_placed(lots@);
    }
    houses_on(&lots)
}

/// Fills a block with a town that is rolled from the seed of its coordinates.
pub fn fill_chunk_neighborhood(coord: ChunkCoord) -> (town: (Block, Vec<House>))
    ensures
        settles(town.1@),
        well_placed(town.1@),
        town.0.wf(),
        forall|x: int, y: int|
            in_block(x, y) ==> as_planned(
                #[trigger] town.0.at(x, y),
                town_plan(town.1@, town.1@.len() as int, x, y),
            ),
{
    let mut rng = rng::seeded(hash_chunk_seed(coord) ^ 0xBEE5_00D0_C0BB_1E);
    let houses = roll_houses(&mut rng);
    let block = build_town(&houses);
    (block, houses)
}

proof fn lemma_outside_stays(houses: Seq<House>, n: int, x: int, y: int)
    requires
        0 <= n <= houses.len(),
        forall|i: int| 0 <= i < n ==> !(#[trigger] houses[i]).plot.holds(x, y),
    ensures
        town_plan(houses, n, x, y) == street_plan(x, y),
    decreases n,
{
    if n > 0 {
        lemma_outside_stays(houses, n - 1, x, y);
    }
}

/// The ring of void around a town stays void.
pub proof fn the_shore_stays_clear(houses: Seq<House>, x: int, y: int)
    requires
        well_placed(houses),
        in_block(x, y),
        x < 2 || y < 2 || x >= 62 || y >= 62,
    ensures
        town_plan(houses, houses.len() as int, x, y) is Void,
{
    lemma_outside_stays(houses, houses.len() as int, x, y);
}

proof fn lemma_alleys(houses: Seq<House>, i: int, n: int, x: int, y: int)
    requires
        well_placed(houses),
        0 <= i < n <= houses.len(),
        houses[i].plot.holds(x, y),
    ensures
        town_plan(houses, n, x, y) == house_plan(houses[i].plot, houses[i].rooms, x, y),
    decreases n,
{
    if n - 1 > i {
        assert(alley_between(houses[i].plot, houses[n - 1].plot));
        lemma_alleys(houses, i, n - 1, x, y);
    }
}

/// Every house of a town has a gap in the middle of its south side, which borders on the
/// inside.
pub proof fn every_house_has_a_door(houses: Seq<House>, i: int)
    requires
        well_placed(houses),
        0 <= i < houses.len(),
    ensures
        ({
            let p = houses[i].plot;
            let x = (p.x0 + p.right()) / 2;
            let n = houses.len() as int;
            &&& town_plan(houses, n, x, p.bottom()) is Road
            &&& p.inside(x, p.bottom() - 1)
        }),
{
    let p = houses[i].plot;
    lemma_alleys(houses, i, houses.len() as int, (p.x0 + p.right()) / 2, p.bottom());
}

} // verus!
