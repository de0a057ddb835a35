//! Procedural chunk metadata: per-house centers, entries, where it is stored.
//!
//! Written to `levels/level_{name}/metadata/{chunk_x}_{chunk_y}.json` on Save when
//! the chunk was procedurally generated this session.
use std::collections::HashMap;

use vstd::prelude::*;

use crate::map::hypermap::{chunk_key, ChunkCoord, Hypermap};
use crate::map::level_files::{chunk_file, layer_dir, make_chunk_file, make_layer_dir};
use crate::map::map_generator::step_chunk_connectors::copy_plan;
use crate::map::map_generator::types::{GeneratedChunkMetadata, GeneratedHouse, HouseEntrypoint};
use crate::map::world_map::CellType;

verus! {

broadcast use vstd::std_specs::hash::group_hash_axioms;

/// Whether two descriptions of a chunk say the same.
pub open spec fn same_metadata(a: GeneratedChunkMetadata, b: GeneratedChunkMetadata) -> bool {
    &&& a.version == b.version
    &&& a.generator_seed == b.generator_seed
    &&& a.houses@ == b.houses@
    &&& a.road_connectors.west@ == b.road_connectors.west@
    &&& a.road_connectors.east@ == b.road_connectors.east@
    &&& a.road_connectors.south@ == b.road_connectors.south@
    &&& a.road_connectors.north@ == b.road_connectors.north@
}

/// A description that says the same.
pub fn copy_metadata(meta: &GeneratedChunkMetadata) -> (out: GeneratedChunkMetadata)
    ensures
        same_metadata(out, *meta),
{
    let mut houses: Vec<GeneratedHouse> = Vec::with_capacity(meta.houses.len());
    let mut i: usize = 0;
    while i < meta.houses.len()
        invariant
            i <= meta.houses@.len(),
            houses@ == meta.houses@.take(i as int),
        decreases meta.houses@.len() - i,
    {
        houses.push(meta.houses[i]);
        i += 1;
        assert(houses@ =~= meta.houses@.take(i as int));
    }
    assert(houses@ =~= meta.houses@);
    GeneratedChunkMetadata {
        version: meta.version,
        generator_seed: meta.generator_seed,
        houses,
        road_connectors: copy_plan(&meta.road_connectors),
    }
}

/// In-memory metadata for procedurally generated chunks (chunk-local tile coordinates).
#[derive(Debug)]
pub struct ChunkGeneratorMetadata {
    by_chunk: HashMap<u64, GeneratedChunkMetadata>,
}

impl ChunkGeneratorMetadata {
    /// The metadata of a chunk, if it has any.
    pub closed spec fn held(self, coord: ChunkCoord) -> Option<GeneratedChunkMetadata> {
        if self.by_chunk@.contains_key(coord.key() as u64) {
            Some(self.by_chunk@[coord.key() as u64])
        } else {
            None
        }
    }

    pub fn insert(&mut self, coord: ChunkCoord, meta: GeneratedChunkMetadata)
        ensures
            forall|c: ChunkCoord| #[trigger]
                final(self).held(c) == if c == coord {
                    Some(meta)
                } else {
                    old(self).held(c)
                },
    {
        let key: u64 = chunk_key(coord);
        self.by_chunk.insert(key, meta);
        proof {
            assert forall|c: ChunkCoord| #[trigger]
                self.held(c) == if c == coord {
                    Some(meta)
                } else {
                    old(self).held(c)
                } by {
                lemma_key_names_chunk(c, coord);
            }
        }
    }

    pub fn get(&self, coord: ChunkCoord) -> (meta: Option<&GeneratedChunkMetadata>)
        ensures
            match meta {
                Some(m) => self.held(coord) == Some(*m),
                None => self.held(coord) is None,
            },
    {
        let key: u64 = chunk_key(coord);
        self.by_chunk.get(&key)
    }

    pub fn remove(&mut self, coord: ChunkCoord)
        ensures
            forall|c: ChunkCoord| #[trigger]
                final(self).held(c) == if c == coord {
                    None
                } else {
                    old(self).held(c)
                },
    {
        let key: u64 = chunk_key(coord);
        self.by_chunk.remove(&key);
        proof {
            assert forall|c: ChunkCoord| #[trigger]
                self.held(c) == if c == coord {
                    None
                } else {
                    old(self).held(c)
                } by {
                lemma_key_names_chunk(c, coord);
            }
        }
    }
}

impl Default for ChunkGeneratorMetadata {
    fn default() -> (store: Self)
        ensures
            forall|c: ChunkCoord| #[trigger] store.held(c) is None,
    {
        ChunkGeneratorMetadata { by_chunk: HashMap::new() }
    }
}

proof fn lemma_key_names_chunk(a: ChunkCoord, b: ChunkCoord)
    ensures
        a.key() as u64 == b.key() as u64 ==> a == b,
        0 <= a.key() <= u64::MAX,
        0 <= b.key() <= u64::MAX,
{
    let ah = a.x + 0x8000_0000;
    let bh = b.x + 0x8000_0000;
    assert(0 <= ah * 0x1_0000_0000 + (a.y + 0x8000_0000) <= u64::MAX);
    if ah != bh {
        assert(ah * 0x1_0000_0000 + (a.y + 0x8000_0000) != bh * 0x1_0000_0000 + (b.y
            + 0x8000_0000)) by (nonlinear_arith)
            requires
                ah != bh,
                0 <= a.y + 0x8000_0000 < 0x1_0000_0000,
                0 <= b.y + 0x8000_0000 < 0x1_0000_0000,
        ;
    }
}

/// Whether the tile of the chunk has world coordinates.
pub open spec fn has_world_tile(chunk: ChunkCoord, x: int, z: int) -> bool {
    i32::MIN <= chunk.x * 128 && chunk.x * 128 <= i32::MAX && i32::MIN <= chunk.x * 128 + x
        <= i32::MAX && i32::MIN <= chunk.y * 128 && chunk.y * 128 <= i32::MAX && i32::MIN <= chunk.y
        * 128 + z <= i32::MAX
}

/// World coordinates of a chunk-local tile.
pub fn local_tile_to_world(chunk: ChunkCoord, local_x: i32, local_z: i32) -> (tile: (i32, i32))
    requires
        has_world_tile(chunk, local_x as int, local_z as int),
    ensures
        tile.0 == chunk.x * 128 + local_x,
        tile.1 == chunk.y * 128 + local_z,
{
    (chunk.x * 128 + local_x, chunk.y * 128 + local_z)
}

impl GeneratedHouse {
    pub fn center_world(&self, chunk: ChunkCoord) -> (tile: (i32, i32))
        requires
            has_world_tile(chunk, self.center_x as int, self.center_z as int),
        ensures
            tile.0 == chunk.x * 128 + self.center_x,
            tile.1 == chunk.y * 128 + self.center_z,
    {
        local_tile_to_world(chunk, self.center_x, self.center_z)
    }
}

impl HouseEntrypoint {
    /// Road tile just outside the doorway, in world tiles.
    pub fn walk_world(&self, chunk: ChunkCoord) -> (tile: (i32, i32))
        requires
            has_world_tile(chunk, self.walk_x as int, self.walk_z as int),
        ensures
            tile.0 == chunk.x * 128 + self.walk_x,
            tile.1 == chunk.y * 128 + self.walk_z,
    {
        local_tile_to_world(chunk, self.walk_x, self.walk_z)
    }

    pub fn wall_world(&self, chunk: ChunkCoord) -> (tile: (i32, i32))
        requires
            has_world_tile(chunk, self.wall_x as int, self.wall_z as int),
        ensures
            tile.0 == chunk.x * 128 + self.wall_x,
            tile.1 == chunk.y * 128 + self.wall_z,
    {
        local_tile_to_world(chunk, self.wall_x, self.wall_z)
    }
}

impl GeneratedChunkMetadata {
    /// First house main entry as world tile coordinates (road tile outside the door).
    pub fn entrypoint_world(&self, chunk: ChunkCoord) -> (tile: Option<(i32, i32)>)
        requires
            self.houses@.len() > 0 ==> has_world_tile(
                chunk,
                self.houses@[0].entry.walk_x as int,
                self.houses@[0].entry.walk_z as int,
            ),
        ensures
            match tile {
                Some(t) => self.houses@.len() > 0 && t.0 == chunk.x * 128
                    + self.houses@[0].entry.walk_x && t.1 == chunk.y * 128
                    + self.houses@[0].entry.walk_z,
                None => self.houses@.len() == 0,
            },
    {
        self.house_entry_world(0, chunk)
    }

    /// Main entry for one house in world tile coordinates.
    pub fn house_entry_world(&self, house_index: usize, chunk: ChunkCoord) -> (tile: Option<
        (i32, i32),
    >)
        requires
            house_index < self.houses@.len() ==> has_world_tile(
                chunk,
                self.houses@[house_index as int].entry.walk_x as int,
                self.houses@[house_index as int].entry.walk_z as int,
            ),
        ensures
            match tile {
                Some(t) => house_index < self.houses@.len() && t.0 == chunk.x * 128
                    + self.houses@[house_index as int].entry.walk_x && t.1 == chunk.y * 128
                    + self.houses@[house_index as int].entry.walk_z,
                None => house_index >= self.houses@.len(),
            },
    {
        if house_index < self.houses.len() {
            Some(self.houses[house_index].entry.walk_world(chunk))
        } else {
            None
        }
    }

    /// House center in world tile coordinates.
    pub fn house_center_world(&self, house_index: usize, chunk: ChunkCoord) -> (tile: Option<
        (i32, i32),
    >)
        requires
            house_index < self.houses@.len() ==> has_world_tile(
                chunk,
                self.houses@[house_index as int].center_x as int,
                self.houses@[house_index as int].center_z as int,
            ),
        ensures
            match tile {
                Some(t) => house_index < self.houses@.len() && t.0 == chunk.x * 128
                    + self.houses@[house_index as int].center_x && t.1 == chunk.y * 128
                    + self.houses@[house_index as int].center_z,
                None => house_index >= self.houses@.len(),
            },
    {
        if house_index < self.houses.len() {
            Some(self.houses[house_index].center_world(chunk))
        } else {
            None
        }
    }

    /// Deprecated alias for [`Self::house_center_world`].
    pub fn room_center_world(&self, house_index: usize, chunk: ChunkCoord) -> (tile: Option<
        (i32, i32),
    >)
        requires
            house_index < self.houses@.len() ==> has_world_tile(
                chunk,
                self.houses@[house_index as int].center_x as int,
                self.houses@[house_index as int].center_z as int,
            ),
        ensures
            match tile {
                Some(t) => house_index < self.houses@.len() && t.0 == chunk.x * 128
                    + self.houses@[house_index as int].center_x && t.1 == chunk.y * 128
                    + self.houses@[house_index as int].center_z,
                None => house_index >= self.houses@.len(),
            },
    {
        self.house_center_world(house_index, chunk)
    }
}

pub fn metadata_dir(level_name: &str) -> (dir: String)
    ensures
        dir@ == layer_dir(level_name@, "metadata"@),
{
    make_layer_dir(level_name, "metadata")
}

pub fn chunk_metadata_path(level_name: &str, coord: ChunkCoord) -> (path: String)
    ensures
        path@ == chunk_file(layer_dir(level_name@, "metadata"@), coord, ".json"@),
{
    make_chunk_file(metadata_dir(level_name), coord, ".json")
}

/// The chunks among the first `n` that have metadata.
pub open spec fn described(store: ChunkGeneratorMetadata, coords: Seq<ChunkCoord>, n: nat) -> Seq<
    ChunkCoord,
>
    decreases n,
{
    if n == 0 {
        seq![]
    } else if store.held(coords[n - 1]) is Some {
        described(store, coords, (n - 1) as nat).push(coords[n - 1])
    } else {
        described(store, coords, (n - 1) as nat)
    }
}

/// The chunks whose metadata a level save writes: those present in `store` that also exist in
/// `cell_map`.
pub fn level_metadata_chunks(
    store: &ChunkGeneratorMetadata,
    cell_map: &Hypermap<CellType>,
) -> (out: Vec<ChunkCoord>)
    ensures
        out@ == described(*store, cell_map.loaded_coords(), cell_map.loaded_coords().len()),
{
    let coords = cell_map.loaded_chunks();
    let mut out: Vec<ChunkCoord> = Vec::new();
    let mut i: usize = 0;
    while i < coords.len()
        invariant
            i <= coords@.len(),
            out@ == described(*store, coords@, i as nat),
        decreases coords@.len() - i,
    {
        if store.get(coords[i]).is_some() {
            out.push(coords[i]);
        }
        i += 1;
    }
    out
}

} // verus!
