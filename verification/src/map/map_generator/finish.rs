//! What a finished draft hands out: cells, styles, lamps and reference data.
use vstd::prelude::*;

use crate::map::hypermap::{floor_in_range, HypermapChunk, LocalCoord};
use crate::map::map_generator::draft::{becomes, draft_tile_to_cell, tile_at, Cells, MapDraft};
use crate::map::map_generator::grid::{in_grid, is_square, new_grid, put, read, value_at};
use crate::map::map_generator::step_carpet::earlier_cell;
use crate::map::map_generator::types::{
    GeneratedChunkMetadata, GeneratedHouse, GENERATED_CHUNK_METADATA_VERSION,
};
use crate::map::world_map::{CellType, LampDecoration, TileStyle};

verus! {

/// Whether the ground floor of `after` shows the grid and the rest is as in `before`.
pub open spec fn ground_shows<T: Copy>(
    after: HypermapChunk<T>,
    before: HypermapChunk<T>,
    grid: Vec<Vec<T>>,
) -> bool {
    forall|l: LocalCoord, f: int|
        l.in_chunk() && floor_in_range(f) ==> #[trigger] after.at(l, f) == if f == 0 && in_grid(
            grid@.len() as int,
            l.x as int,
            l.y as int,
        ) {
            value_at(grid, l.x as int, l.y as int)
        } else {
            before.at(l, f)
        }
}

/// Writes a grid to the ground floor of a chunk.
pub fn write_ground<T: Copy>(chunk: &mut HypermapChunk<T>, grid: &Vec<Vec<T>>)
    requires
        old(chunk).wf(),
        is_square(*grid, grid@.len() as int),
        grid@.len() <= 128,
    ensures
        final(chunk).wf(),
        ground_shows(*final(chunk), *old(chunk), *grid),
{
    let size: i32 = grid.len() as i32;
    let mut z: i32 = 0;
    while z < size
        invariant
            chunk.wf(),
            is_square(*grid, size as int),
            0 <= z <= size <= 128,
            forall|l: LocalCoord, f: int|
                l.in_chunk() && floor_in_range(f) ==> #[trigger] chunk.at(l, f) == if f == 0
                    && in_grid(size as int, l.x as int, l.y as int) && l.y < z {
                    value_at(*grid, l.x as int, l.y as int)
                } else {
                    old(chunk).at(l, f)
                },
        decreases size - z,
    {
        let mut x: i32 = 0;
        while x < size
            invariant
                chunk.wf(),
                is_square(*grid, size as int),
                0 <= x <= size <= 128,
                0 <= z < size,
                forall|l: LocalCoord, f: int|
                    l.in_chunk() && floor_in_range(f) ==> #[trigger] chunk.at(l, f) == if f == 0
                        && in_grid(size as int, l.x as int, l.y as int) && earlier_cell(
                        l.x as int,
                        l.y as int,
                        x as int,
                        z as int,
                    ) {
                        value_at(*grid, l.x as int, l.y as int)
                    } else {
                        old(chunk).at(l, f)
                    },
            decreases size - x,
        {
            chunk.set_local(LocalCoord::new(x, z), read(grid, x, z));
            x += 1;
        }
        z += 1;
    }
}

fn finish_cells(cells: &Cells) -> (out: Vec<Vec<CellType>>)
    requires
        crate::map::map_generator::draft::sound(*cells, cells@.len() as int),
    ensures
        is_square(out, cells@.len() as int),
        forall|x: int, z: int|
            in_grid(cells@.len() as int, x, z) ==> becomes(
                tile_at(*cells, x, z),
                #[trigger] value_at(out, x, z),
            ),
{
    let sz: usize = cells.len();
    let mut out = new_grid(sz, CellType::Void);
    let mut z: i32 = 0;
    while (z as usize) < sz
        invariant
            crate::map::map_generator::draft::sound(*cells, cells@.len() as int),
            sz == cells@.len(),
            is_square(out, sz as int),
            0 <= z <= sz <= 46340,
            forall|u: int, w: int|
                in_grid(sz as int, u, w) && w < z ==> becomes(
                    tile_at(*cells, u, w),
                    #[trigger] value_at(out, u, w),
                ),
        decreases sz - z,
    {
        let mut x: i32 = 0;
        while (x as usize) < sz
            invariant
                crate::map::map_generator::draft::sound(*cells, cells@.len() as int),
                sz == cells@.len(),
                is_square(out, sz as int),
                0 <= x <= sz <= 46340,
                0 <= z < sz,
                forall|u: int, w: int|
                    in_grid(sz as int, u, w) && earlier_cell(u, w, x as int, z as int) ==> becomes(
                        tile_at(*cells, u, w),
                        #[trigger] value_at(out, u, w),
                    ),
            decreases sz - x,
        {
            assert(tile_at(*cells, x as int, z as int) == value_at(*cells, x as int, z as int));
            let cell = draft_tile_to_cell(read(cells, x, z));
            put(&mut out, x, z, cell);
            x += 1;
        }
        z += 1;
    }
    out
}

impl MapDraft {
    /// Converts the draft grid into runtime [`CellType`] tiles.
    pub fn finish(&self) -> (out: Vec<Vec<CellType>>)
        requires
            self.wf(),
        ensures
            is_square(out, self.size as int),
            forall|x: int, z: int|
                in_grid(self.size as int, x, z) ==> becomes(
                    self.tile(x, z),
                    #[trigger] value_at(out, x, z),
                ),
    {
        finish_cells(&self.cells)
    }

    /// Whether the ground floor of `after` shows the tiles and the rest is as in `before`.
    pub open spec fn ground_built(
        self,
        after: HypermapChunk<CellType>,
        before: HypermapChunk<CellType>,
    ) -> bool {
        forall|l: LocalCoord, f: int|
            l.in_chunk() && floor_in_range(f) ==> if f == 0 && in_grid(
                self.size as int,
                l.x as int,
                l.y as int,
            ) {
                becomes(self.tile(l.x as int, l.y as int), #[trigger] after.at(l, f))
            } else {
                after.at(l, f) == before.at(l, f)
            }
    }

    pub fn write_chunk_floor0(&self, chunk: &mut HypermapChunk<CellType>)
        requires
            self.wf(),
            self.size <= 128,
            old(chunk).wf(),
        ensures
            final(chunk).wf(),
            self.ground_built(*final(chunk), *old(chunk)),
    {
        let cells = self.finish();
        write_ground(chunk, &cells);
    }

    pub fn write_chunk_floor0_and_styles(
        &self,
        chunk: &mut HypermapChunk<CellType>,
        style_chunk: &mut HypermapChunk<TileStyle>,
        lamp_chunk: &mut HypermapChunk<LampDecoration>,
    )
        requires
            self.wf(),
            self.size <= 128,
            old(chunk).wf(),
            old(style_chunk).wf(),
            old(lamp_chunk).wf(),
        ensures
            final(chunk).wf(),
            final(style_chunk).wf(),
            final(lamp_chunk).wf(),
            self.ground_built(*final(chunk), *old(chunk)),
            ground_shows(*final(style_chunk), *old(style_chunk), self.floor_styles),
            ground_shows(*final(lamp_chunk), *old(lamp_chunk), self.lamps),
    {
        self.write_chunk_floor0(chunk);
        write_ground(style_chunk, &self.floor_styles);
        write_ground(lamp_chunk, &self.lamps);
    }

    /// Reference data of the layout; every house has its main doorway.
    pub fn build_metadata(&self) -> (meta: GeneratedChunkMetadata)
        requires
            self.wf(),
            forall|i: int|
                0 <= i < self.houses@.len() ==> (#[trigger] self.houses@[i]).entry is Some,
        ensures
            meta.version == 4,
            meta.generator_seed == self.generator_seed,
            meta.houses@ == Seq::new(self.houses@.len(), |i: int| self.houses@[i].generated()),
            meta.road_connectors.west@ == self.connector_plan.west@,
            meta.road_connectors.east@ == self.connector_plan.east@,
            meta.road_connectors.south@ == self.connector_plan.south@,
            meta.road_connectors.north@ == self.connector_plan.north@,
    {
        let mut houses: Vec<GeneratedHouse> = Vec::new();
        let mut i: usize = 0;
        while i < self.houses.len()
            invariant
                self.wf(),
                i <= self.houses@.len(),
                forall|j: int|
                    0 <= j < self.houses@.len() ==> (#[trigger] self.houses@[j]).entry is Some,
                houses@ == Seq::new(i as nat, |i: int| self.houses@[i].generated()),
            decreases self.houses@.len() - i,
        {
            let house = &self.houses[i];
            houses.push(house.to_generated());
            i += 1;
            assert(houses@ =~= Seq::new(i as nat, |i: int| self.houses@[i].generated()));
        }
        GeneratedChunkMetadata {
            version: GENERATED_CHUNK_METADATA_VERSION,
            generator_seed: self.generator_seed,
            houses,
            road_connectors: crate::map::map_generator::step_chunk_connectors::copy_plan(
                &self.connector_plan,
            ),
        }
    }
}

} // verus!
