//! Working grid (`MapDraft`) and geometry helpers used across pipeline steps.
use rand::rngs::StdRng;
use vstd::prelude::*;

use crate::map::map_generator::grid::{in_grid, is_square, new_grid, put, read, value_at};
use crate::map::map_generator::house::{all_house_rects, house_fits, House};
use crate::map::map_generator::types::{ChunkRoadConnectors, MapGeneratorConfig, BORDER_CLEARANCE};
use crate::map::world_map::{
    valid_mask, CellType, ChargerFacing, LampDecoration, TileStyle, WallCorner, WallMask,
};
use crate::rng;

verus! {

/// In-bounds ranges for seed placement and room growth (derived from config).
#[derive(Debug, Clone, Copy)]
pub struct DraftBounds {
    pub place_lo: i32,
    pub place_hi: i32,
    pub grow_lo: i32,
    pub grow_hi: i32,
}

impl DraftBounds {
    /// Whether these are the ranges of a draft with this side and margin.
    pub open spec fn of(self, size: int, margin: int) -> bool {
        &&& self.place_lo == margin + BORDER_CLEARANCE
        &&& self.place_hi == size - margin - BORDER_CLEARANCE - 1
        &&& self.grow_lo == margin + BORDER_CLEARANCE
        &&& self.grow_hi == size - margin - BORDER_CLEARANCE - 1
    }

    pub fn from_config(config: &MapGeneratorConfig) -> (bounds: Self)
        requires
            config.valid(),
        ensures
            bounds.of(config.size as int, config.margin as int),
    {
        let m: i32 = config.margin;
        let sz: i32 = config.size;
        DraftBounds {
            place_lo: m + BORDER_CLEARANCE,
            place_hi: sz - m - BORDER_CLEARANCE - 1,
            grow_lo: m + BORDER_CLEARANCE,
            grow_hi: sz - m - BORDER_CLEARANCE - 1,
        }
    }
}

/// An axis-aligned rectangle of cells, corners included.
#[derive(Debug, Clone, Copy, PartialEq, Eq, Structural)]
pub struct Room {
    pub x0: i32,
    pub z0: i32,
    pub x1: i32,
    pub z1: i32,
}

impl Room {
    /// Whether the cell lies in the rectangle.
    pub open spec fn has(self, x: int, z: int) -> bool {
        self.x0 <= x <= self.x1 && self.z0 <= z <= self.z1
    }

    /// Whether the rectangle lies in an `n` by `n` grid.
    pub open spec fn inside(self, n: int) -> bool {
        0 <= self.x0 && self.x1 < n && 0 <= self.z0 && self.z1 < n
    }

    pub fn contains(&self, x: i32, z: i32) -> (inside: bool)
        ensures
            inside == self.has(x as int, z as int),
    {
        x >= self.x0 && x <= self.x1 && z >= self.z0 && z <= self.z1
    }
}

/// The rectangle that grew from one subseed.
#[derive(Debug, Clone, Copy)]
pub struct RoomRecord {
    pub bounds: Room,
}

/// Logical cell while the map is still being built (not yet [`CellType`]).
#[derive(Debug, Clone, Copy, PartialEq, Eq, Structural)]
pub enum DraftTile {
    Void,
    Open,
    Wall(u8),
    Corner(WallCorner),
    /// Walkable charging station backing onto the named wall (see [`ChargerFacing`]).
    Charger(ChargerFacing),
    /// Walkable parts depot backing onto the named wall.
    PartsDepot(ChargerFacing),
}

impl Default for DraftTile {
    fn default() -> (tile: Self)
        ensures
            tile == DraftTile::Void,
    {
        DraftTile::Void
    }
}

impl DraftTile {
    /// Walls and pillars.
    pub open spec fn solid(self) -> bool {
        self is Wall || self is Corner
    }
}

/// Rows of draft tiles.
pub type Cells = Vec<Vec<DraftTile>>;

/// The tile at (x, z); outside the grid there is only void.
pub open spec fn tile_at(cells: Cells, x: int, z: int) -> DraftTile {
    if in_grid(cells@.len() as int, x, z) {
        value_at(cells, x, z)
    } else {
        DraftTile::Void
    }
}

/// Whether the grid is `n` by `n` and every wall has at least one slab.
pub open spec fn sound(cells: Cells, n: int) -> bool {
    &&& is_square(cells, n)
    &&& 0 <= n <= 46340
    &&& forall|x: int, z: int|
        #![trigger tile_at(cells, x, z)]
        match tile_at(cells, x, z) {
            DraftTile::Wall(bits) => valid_mask(bits),
            _ => true,
        }
}

/// The tile at (x, z); outside the grid there is only void.
pub fn get_tile(cells: &Cells, x: i32, z: i32) -> (tile: DraftTile)
    requires
        is_square(*cells, cells@.len() as int),
    ensures
        tile == tile_at(*cells, x as int, z as int),
{
    if x >= 0 && z >= 0 && (x as usize) < cells.len() && (z as usize) < cells.len() {
        read(cells, x, z)
    } else {
        DraftTile::Void
    }
}

/// Writes the tile at (x, z).
pub fn set_tile(cells: &mut Cells, x: i32, z: i32, tile: DraftTile)
    requires
        sound(*old(cells), old(cells)@.len() as int),
        in_grid(old(cells)@.len() as int, x as int, z as int),
        match tile {
            DraftTile::Wall(bits) => valid_mask(bits),
            _ => true,
        },
    ensures
        final(cells)@.len() == old(cells)@.len(),
        sound(*final(cells), final(cells)@.len() as int),
        forall|u: int, w: int| #[trigger]
            tile_at(*final(cells), u, w) == if u == x && w == z {
                tile
            } else {
                tile_at(*old(cells), u, w)
            },
{
    put(cells, x, z, tile);
    proof {
        assert forall|u: int, w: int| #[trigger]
            tile_at(*cells, u, w) == if u == x && w == z {
                tile
            } else {
                tile_at(*old(cells), u, w)
            } by {}
    }
}

/// The cell that a draft tile becomes.
pub open spec fn becomes(tile: DraftTile, cell: CellType) -> bool {
    match tile {
        DraftTile::Void => cell == CellType::Void,
        DraftTile::Open => cell == CellType::Road,
        DraftTile::Wall(bits) => match cell {
            CellType::Wall(mask) => mask.edges() == bits,
            _ => false,
        },
        DraftTile::Corner(c) => cell == CellType::Corner(c),
        DraftTile::Charger(facing) => cell == CellType::Charger(facing),
        DraftTile::PartsDepot(facing) => cell == CellType::PartsDepot(facing),
    }
}

pub fn draft_tile_to_cell(tile: DraftTile) -> (cell: CellType)
    requires
        match tile {
            DraftTile::Wall(bits) => valid_mask(bits),
            _ => true,
        },
    ensures
        becomes(tile, cell),
{
    match tile {
        DraftTile::Void => CellType::Void,
        DraftTile::Open => CellType::Road,
        DraftTile::Wall(bits) => match WallMask::from_bits(bits) {
            Some(mask) => CellType::Wall(mask),
            None => CellType::Void,
        },
        DraftTile::Corner(c) => CellType::Corner(c),
        DraftTile::Charger(facing) => CellType::Charger(facing),
        DraftTile::PartsDepot(facing) => CellType::PartsDepot(facing),
    }
}

/// Working map: all pipeline steps read and write this structure.
pub struct MapDraft {
    pub size: i32,
    pub margin: i32,
    pub bounds: DraftBounds,
    pub rng: StdRng,
    pub cells: Vec<Vec<DraftTile>>,
    pub floor_styles: Vec<Vec<TileStyle>>,
    pub lamps: Vec<Vec<LampDecoration>>,
    pub primary_seeds: Vec<(i32, i32)>,
    pub growth_centers: Vec<(i32, i32)>,
    /// Centers added beside primaries; rooms grow here only.
    pub subseed_centers: Vec<(i32, i32)>,
    pub room_records: Vec<RoomRecord>,
    pub houses: Vec<House>,
    pub connector_plan: ChunkRoadConnectors,
    pub generator_seed: u64,
}

impl MapDraft {
    /// The grids have the side of the draft, walls have slabs, and houses lie in the grid.
    pub open spec fn wf(self) -> bool {
        &&& 0 <= self.size <= 46340
        &&& 0 <= self.margin <= 46340
        &&& self.bounds.of(self.size as int, self.margin as int)
        &&& sound(self.cells, self.size as int)
        &&& is_square(self.floor_styles, self.size as int)
        &&& is_square(self.lamps, self.size as int)
        &&& self.houses_fit()
    }

    /// Whether every house lies in the grid.
    pub open spec fn houses_fit(self) -> bool {
        forall|i: int|
            0 <= i < self.houses@.len() ==> house_fits(#[trigger] self.houses@[i], self.size as int)
    }

    /// The tile at (x, z).
    pub open spec fn tile(self, x: int, z: int) -> DraftTile {
        tile_at(self.cells, x, z)
    }

    /// The floor style at (x, z).
    pub open spec fn style(self, x: int, z: int) -> TileStyle {
        value_at(self.floor_styles, x, z)
    }

    /// The lamp at (x, z).
    pub open spec fn lamp(self, x: int, z: int) -> LampDecoration {
        value_at(self.lamps, x, z)
    }

    pub fn new(config: MapGeneratorConfig) -> (draft: Self)
        requires
            config.valid(),
        ensures
            draft.wf(),
            draft.size == config.size,
            draft.margin == config.margin,
            draft.generator_seed == config.seed,
            forall|x: int, z: int| #[trigger] draft.tile(x, z) == DraftTile::Void,
            forall|x: int, z: int|
                in_grid(config.size as int, x, z) ==> #[trigger] draft.style(x, z)
                    == TileStyle::Regular,
            forall|x: int, z: int|
                in_grid(config.size as int, x, z) ==> #[trigger] draft.lamp(x, z)
                    == LampDecoration::Bare,
            draft.primary_seeds@.len() == 0,
            draft.growth_centers@.len() == 0,
            draft.subseed_centers@.len() == 0,
            draft.room_records@.len() == 0,
            draft.houses@.len() == 0,
            draft.connector_plan.west@.len() == 0,
            draft.connector_plan.east@.len() == 0,
            draft.connector_plan.south@.len() == 0,
            draft.connector_plan.north@.len() == 0,
    {
        let size: i32 = config.size;
        let sz: usize = size as usize;
        MapDraft {
            size,
            margin: config.margin,
            bounds: DraftBounds::from_config(&config),
            rng: rng::seeded(config.seed),
            cells: new_grid(sz, DraftTile::Void),
            floor_styles: new_grid(sz, TileStyle::DEFAULT),
            lamps: new_grid(sz, LampDecoration::Bare),
            primary_seeds: Vec::new(),
            growth_centers: Vec::new(),
            subseed_centers: Vec::new(),
            room_records: Vec::new(),
            houses: Vec::new(),
            connector_plan: ChunkRoadConnectors::default(),
            generator_seed: config.seed,
        }
    }

    /// The rects of all houses.
    pub fn rooms(&self) -> (rooms: Vec<Room>)
        ensures
            rooms@ == crate::map::map_generator::house::rects_of(self.houses@, self.houses@.len()),
    {
        all_house_rects(&self.houses)
    }

    /// The tile at (x, z); outside the grid there is only void.
    pub fn get(&self, x: i32, z: i32) -> (tile: DraftTile)
        requires
            self.wf(),
        ensures
            tile == self.tile(x as int, z as int),
    {
        get_tile(&self.cells, x, z)
    }

    /// Writes the tile at (x, z).
    pub fn set(&mut self, x: i32, z: i32, tile: DraftTile)
        requires
            old(self).wf(),
            in_grid(old(self).size as int, x as int, z as int),
            match tile {
                DraftTile::Wall(bits) => valid_mask(bits),
                _ => true,
            },
        ensures
            final(self).wf(),
            *final(self) == (MapDraft { cells: final(self).cells, ..*old(self) }),
            forall|u: int, w: int| #[trigger]
                final(self).tile(u, w) == if u == x && w == z {
                    tile
                } else {
                    old(self).tile(u, w)
                },
    {
        set_tile(&mut self.cells, x, z, tile);
    }

    pub fn in_bounds(&self, x: i32, z: i32) -> (inside: bool)
        ensures
            inside == in_grid(self.size as int, x as int, z as int),
    {
        x >= 0 && z >= 0 && x < self.size && z < self.size
    }
}

} // verus!
