//! Hypermap: an infinite, chunked tile store.
//!
//! World space is addressed by signed integer tile coordinates. Tiles are grouped
//! into fixed 128x128 chunks that are allocated lazily on first write. A chunk
//! holds [`HYPERMAP_FLOOR_COUNT`] floors per column.
//!
//! The contracts speak of [`Hypermap::tile`], the value that the map shows at a
//! world coordinate and floor, and of [`Hypermap::has`], the chunks it holds.

use std::collections::HashMap;

use vstd::prelude::*;

verus! {

broadcast use vstd::std_specs::hash::group_hash_axioms;

pub const HYPERMAP_CHUNK_SIZE: i32 = 128;

/// Number of vertical floors per column (indices `0..HYPERMAP_FLOOR_COUNT`).
pub const HYPERMAP_FLOOR_COUNT: usize = 10;

/// Cells of one chunk over all floors: `128 * 128 * 10`.
const HYPERMAP_CHUNK_CELL_COUNT: usize = 163_840;

/// Chunk-space coordinate (can be positive or negative).
#[derive(Debug, Clone, Copy, PartialEq, Eq, Structural, Hash)]
pub struct ChunkCoord {
    pub x: i32,
    pub y: i32,
}

impl ChunkCoord {
    pub fn new(x: i32, y: i32) -> (coord: Self)
        ensures
            coord == (ChunkCoord { x, y }),
    {
        ChunkCoord { x, y }
    }

    /// The table key of a chunk: both components shifted to be non-negative and
    /// laid side by side.
    pub open spec fn key(self) -> int {
        (self.x + 0x8000_0000) * 0x1_0000_0000 + (self.y + 0x8000_0000)
    }
}

/// Random seed for the generator when a chunk is first filled procedurally.
///
/// Not derived from chunk coordinates: each first-time generation pass gets a fresh
/// layout, so nothing is promised of the value.
pub fn random_rng_seed() -> u64 {
    crate::rng::fresh_seed()
}

/// Local coordinate inside one 128x128 chunk. Components are `i32` so
/// callers can do unrestricted arithmetic; values must be in
/// `0..HYPERMAP_CHUNK_SIZE` when used to index a chunk.
#[derive(Debug, Clone, Copy, PartialEq, Eq, Structural)]
pub struct LocalCoord {
    pub x: i32,
    pub y: i32,
}

impl LocalCoord {
    pub fn new(x: i32, y: i32) -> (local: Self)
        ensures
            local == (LocalCoord { x, y }),
    {
        LocalCoord { x, y }
    }

    /// Whether both components index a chunk.
    pub open spec fn in_chunk(self) -> bool {
        0 <= self.x < HYPERMAP_CHUNK_SIZE && 0 <= self.y < HYPERMAP_CHUNK_SIZE
    }
}

/// Whether `floor` is one of a column's floors.
pub open spec fn floor_in_range(floor: int) -> bool {
    0 <= floor < HYPERMAP_FLOOR_COUNT
}

/// The chunk that holds world tile `(wx, wy)`.
pub open spec fn chunk_of(wx: int, wy: int) -> ChunkCoord {
    ChunkCoord { x: (wx / 128) as i32, y: (wy / 128) as i32 }
}

/// The place of world tile `(wx, wy)` inside its chunk.
pub open spec fn local_of(wx: int, wy: int) -> LocalCoord {
    LocalCoord { x: (wx % 128) as i32, y: (wy % 128) as i32 }
}

spec fn cell_index(x: int, y: int, floor: int) -> int {
    (y * 128 + x) * 10 + floor
}

/// A world tile is recovered from its chunk and its local place.
pub proof fn lemma_tile_recovered(wx: i32, wy: i32)
    ensures
        chunk_of(wx as int, wy as int).x * 128 + local_of(wx as int, wy as int).x == wx,
        chunk_of(wx as int, wy as int).y * 128 + local_of(wx as int, wy as int).y == wy,
        local_of(wx as int, wy as int).in_chunk(),
{
}

/// A world tile is recovered from its chunk and its local place, and from no other pair.
pub proof fn world_tile_splits_uniquely(wx: i32, wy: i32, c: ChunkCoord, l: LocalCoord)
    ensures
        chunk_of(wx as int, wy as int).x * 128 + local_of(wx as int, wy as int).x == wx,
        chunk_of(wx as int, wy as int).y * 128 + local_of(wx as int, wy as int).y == wy,
        local_of(wx as int, wy as int).in_chunk(),
        l.in_chunk() && c.x * 128 + l.x == wx && c.y * 128 + l.y == wy ==> c == chunk_of(
            wx as int,
            wy as int,
        ) && l == local_of(wx as int, wy as int),
{
}

/// One 128x128 block of tiles with all its floors.
#[derive(Debug)]
pub struct HypermapChunk<T> {
    cells: Vec<T>,
}

impl<T: Copy> HypermapChunk<T> {
    /// The chunk holds exactly one value per cell and floor.
    pub closed spec fn wf(self) -> bool {
        self.cells@.len() == HYPERMAP_CHUNK_CELL_COUNT
    }

    /// The value stored at a local place and floor.
    pub closed spec fn at(self, local: LocalCoord, floor: int) -> T {
        self.cells@[cell_index(local.x as int, local.y as int, floor)]
    }

    /// A chunk without cells: a stand-in that is never read.
    fn empty() -> (chunk: Self) {
        HypermapChunk { cells: Vec::new() }
    }

    /// A chunk filled with one value.
    pub fn new(default_tile: &T) -> (chunk: Self)
        ensures
            chunk.wf(),
            forall|local: LocalCoord, floor: int|
                local.in_chunk() && floor_in_range(floor) ==> #[trigger] chunk.at(local, floor)
                    == *default_tile,
    {
        let mut cells: Vec<T> = Vec::with_capacity(HYPERMAP_CHUNK_CELL_COUNT);
        let mut i: usize = 0;
        while i < HYPERMAP_CHUNK_CELL_COUNT
            invariant
                i <= HYPERMAP_CHUNK_CELL_COUNT,
                cells@.len() == i,
                forall|j: int| 0 <= j < i ==> cells@[j] == *default_tile,
            decreases HYPERMAP_CHUNK_CELL_COUNT - i,
        {
            cells.push(*default_tile);
            i += 1;
        }
        HypermapChunk { cells }
    }

    /// Copies every cell of `source`, all floors included.
    pub fn copy_cells_from(&mut self, source: &Self)
        requires
            old(self).wf(),
            source.wf(),
        ensures
            final(self).wf(),
            forall|l: LocalCoord, f: int|
                l.in_chunk() && floor_in_range(f) ==> #[trigger] final(self).at(l, f) == source.at(
                    l,
                    f,
                ),
    {
        let mut i: usize = 0;
        while i < HYPERMAP_CHUNK_CELL_COUNT
            invariant
                i <= HYPERMAP_CHUNK_CELL_COUNT,
                self.wf(),
                source.wf(),
                forall|j: int| 0 <= j < i ==> self.cells@[j] == source.cells@[j],
            decreases HYPERMAP_CHUNK_CELL_COUNT - i,
        {
            self.cells[i] = source.cells[i];
            i += 1;
        }
    }

    pub fn get_local_floor(&self, local: LocalCoord, floor: i32) -> (value: &T)
        requires
            self.wf(),
            local.in_chunk(),
            floor_in_range(floor as int),
        ensures
            *value == self.at(local, floor as int),
    {
        &self.cells[local_floor_to_index(local, floor)]
    }

    pub fn set_local_floor(&mut self, local: LocalCoord, floor: i32, value: T)
        requires
            old(self).wf(),
            local.in_chunk(),
            floor_in_range(floor as int),
        ensures
            final(self).wf(),
            forall|l: LocalCoord, f: int|
                l.in_chunk() && floor_in_range(f) ==> #[trigger] final(self).at(l, f) == if l
                    == local && f == floor {
                    value
                } else {
                    old(self).at(l, f)
                },
    {
        let idx: usize = local_floor_to_index(local, floor);
        self.cells[idx] = value;
    }

    /// Ground-floor (`0`) cell.
    pub fn get_local(&self, local: LocalCoord) -> (value: &T)
        requires
            self.wf(),
            local.in_chunk(),
        ensures
            *value == self.at(local, 0),
    {
        self.get_local_floor(local, 0)
    }

    /// Mutable ground-floor (`0`) cell reference for in-place updates.
    pub fn get_local_mut(&mut self, local: LocalCoord) -> (value: &mut T)
        requires
            old(self).wf(),
            local.in_chunk(),
        ensures
            *value == old(self).at(local, 0),
            final(self).wf(),
            forall|l: LocalCoord, f: int|
                l.in_chunk() && floor_in_range(f) ==> #[trigger] final(self).at(l, f) == if l
                    == local && f == 0 {
                    *final(value)
                } else {
                    old(self).at(l, f)
                },
    {
        let idx: usize = local_floor_to_index(local, 0);
        &mut self.cells[idx]
    }

    pub fn set_local(&mut self, local: LocalCoord, value: T)
        requires
            old(self).wf(),
            local.in_chunk(),
        ensures
            final(self).wf(),
            forall|l: LocalCoord, f: int|
                l.in_chunk() && floor_in_range(f) ==> #[trigger] final(self).at(l, f) == if l
                    == local && f == 0 {
                    value
                } else {
                    old(self).at(l, f)
                },
    {
        self.set_local_floor(local, 0, value);
    }
}

fn local_to_index(local: LocalCoord) -> (index: usize)
    requires
        local.in_chunk(),
    ensures
        index == local.y * 128 + local.x,
        index < 16_384,
{
    local.y as usize * 128 + local.x as usize
}

fn local_floor_to_index(local: LocalCoord, floor: i32) -> (index: usize)
    requires
        local.in_chunk(),
        floor_in_range(floor as int),
    ensures
        index == cell_index(local.x as int, local.y as int, floor as int),
        index < HYPERMAP_CHUNK_CELL_COUNT,
{
    local_to_index(local) * HYPERMAP_FLOOR_COUNT + floor as usize
}

pub(crate) fn floor_div(a: i32, b: i32) -> (q: i32)
    requires
        b > 0,
    ensures
        q == a as int / b as int,
{
    proof {
        vstd::arithmetic::div_mod::lemma_fundamental_div_mod(a as int, b as int);
        assert(i32::MIN <= a as int / b as int <= i32::MAX) by (nonlinear_arith)
            requires
                b > 0,
                i32::MIN <= a <= i32::MAX,
        ;
    }
    a.checked_div_euclid(b).unwrap()
}

pub(crate) fn floor_mod(a: i32, b: i32) -> (r: i32)
    requires
        b > 0,
    ensures
        r == a as int % b as int,
{
    a.checked_rem_euclid(b).unwrap()
}

pub fn world_to_chunk_local(world_x: i32, world_y: i32) -> (split: (ChunkCoord, LocalCoord))
    ensures
        split.0 == chunk_of(world_x as int, world_y as int),
        split.1 == local_of(world_x as int, world_y as int),
        split.1.in_chunk(),
        split.0.x * 128 + split.1.x == world_x,
        split.0.y * 128 + split.1.y == world_y,
{
    let chunk_x: i32 = floor_div(world_x, HYPERMAP_CHUNK_SIZE);
    let chunk_y: i32 = floor_div(world_y, HYPERMAP_CHUNK_SIZE);
    let local_x: i32 = floor_mod(world_x, HYPERMAP_CHUNK_SIZE);
    let local_y: i32 = floor_mod(world_y, HYPERMAP_CHUNK_SIZE);
    (ChunkCoord::new(chunk_x, chunk_y), LocalCoord::new(local_x, local_y))
}

pub(crate) fn chunk_key(coord: ChunkCoord) -> (key: u64)
    ensures
        key == coord.key(),
{
    (coord.x as i64 + 0x8000_0000) as u64 * 0x1_0000_0000 + (coord.y as i64 + 0x8000_0000) as u64
}

/// Infinite chunked tile map optimized for sparse, large worlds.
///
/// A tile of a chunk that is not held reads as the default tile; a write creates
/// the chunk.
#[derive(Debug)]
pub struct Hypermap<T> {
    chunks: HashMap<u64, HypermapChunk<T>>,
    /// Coordinates of the held chunks, in the order in which they were created.
    loaded: Vec<ChunkCoord>,
    default_tile: T,
}

impl<T: Copy> Hypermap<T> {
    /// The chunk table and the list of held coordinates agree, and every held
    /// chunk is complete.
    pub closed spec fn wf(self) -> bool {
        &&& self.loaded@.no_duplicates()
        &&& forall|i: int|
            0 <= i < self.loaded@.len() ==> self.chunks@.contains_key(
                (#[trigger] self.loaded@[i]).key() as u64,
            )
        &&& forall|c: ChunkCoord| #[trigger]
            self.chunks@.contains_key(c.key() as u64) ==> self.loaded@.contains(c)
        &&& forall|c: ChunkCoord| #[trigger]
            self.chunks@.contains_key(c.key() as u64) ==> self.chunks@[c.key() as u64].wf()
    }

    /// Whether the map holds the chunk.
    pub closed spec fn has(self, coord: ChunkCoord) -> bool {
        self.chunks@.contains_key(coord.key() as u64)
    }

    /// The contents of a held chunk.
    pub closed spec fn chunk(self, coord: ChunkCoord) -> HypermapChunk<T> {
        self.chunks@[coord.key() as u64]
    }

    /// Coordinates of the held chunks in creation order.
    pub closed spec fn loaded_coords(self) -> Seq<ChunkCoord> {
        self.loaded@
    }

    /// What a tile reads as where no chunk is held.
    pub closed spec fn default_value(self) -> T {
        self.default_tile
    }

    /// The value that the map shows at a place of a chunk.
    pub open spec fn tile_in(self, coord: ChunkCoord, local: LocalCoord, floor: int) -> T {
        if self.has(coord) {
            self.chunk(coord).at(local, floor)
        } else {
            self.default_value()
        }
    }

    /// The value that the map shows at a world tile and floor.
    pub open spec fn tile(self, wx: int, wy: int, floor: int) -> T {
        self.tile_in(chunk_of(wx, wy), local_of(wx, wy), floor)
    }

    /// The list of held coordinates names every held chunk once and no other.
    pub proof fn loaded_coords_are_the_held_chunks(self)
        requires
            self.wf(),
        ensures
            self.loaded_coords().no_duplicates(),
            forall|c: ChunkCoord| self.loaded_coords().contains(c) <==> #[trigger] self.has(c),
    {
        assert forall|c: ChunkCoord| self.loaded_coords().contains(c) implies #[trigger] self.has(
            c,
        ) by {
            let i = choose|i: int| 0 <= i < self.loaded@.len() && self.loaded@[i] == c;
            assert(self.chunks@.contains_key(self.loaded@[i].key() as u64));
        }
    }

    pub fn new(default_tile: T) -> (map: Self)
        ensures
            map.wf(),
            map.default_value() == default_tile,
            map.loaded_coords() == Seq::<ChunkCoord>::empty(),
            forall|c: ChunkCoord| !#[trigger] map.has(c),
    {
        Hypermap { chunks: HashMap::new(), loaded: Vec::new(), default_tile }
    }

    /// Tile at world coordinate on **ground floor** (`0`). Missing chunks read as default tile.
    pub fn get(&self, world_x: i32, world_y: i32) -> (value: T)
        requires
            self.wf(),
        ensures
            value == self.tile(world_x as int, world_y as int, 0),
    {
        self.get_floor(world_x, world_y, 0)
    }

    /// Writes tile value at world coordinate on **ground floor** (`0`), creating chunk lazily if needed.
    pub fn set(&mut self, world_x: i32, world_y: i32, value: T)
        requires
            old(self).wf(),
        ensures
            final(self).wf(),
            final(self).wrote(*old(self), world_x as int, world_y as int, 0, value),
    {
        self.set_floor(world_x, world_y, 0, value);
    }

    /// How the map looks after `value` was written at one world tile and floor:
    /// only that tile changed, and its chunk is held.
    pub open spec fn wrote(self, before: Self, wx: int, wy: int, floor: int, value: T) -> bool {
        let target = chunk_of(wx, wy);
        &&& self.default_value() == before.default_value()
        &&& self.loaded_coords() == if before.has(target) {
            before.loaded_coords()
        } else {
            before.loaded_coords().push(target)
        }
        &&& forall|c: ChunkCoord| #[trigger] self.has(c) <==> before.has(c) || c == target
        &&& forall|c: ChunkCoord, l: LocalCoord, f: int|
            l.in_chunk() && floor_in_range(f) ==> #[trigger] self.tile_in(c, l, f) == if c
                == target && l == local_of(wx, wy) && f == floor {
                value
            } else {
                before.tile_in(c, l, f)
            }
    }

    /// Tile at world `(x, y)` and elevation `floor` in `0..HYPERMAP_FLOOR_COUNT`.
    pub fn get_floor(&self, world_x: i32, world_y: i32, floor: i32) -> (value: T)
        requires
            self.wf(),
            floor_in_range(floor as int),
        ensures
            value == self.tile(world_x as int, world_y as int, floor as int),
    {
        let (chunk, local) = world_to_chunk_local(world_x, world_y);
        match self.get_chunk(chunk) {
            Some(held) => *held.get_local_floor(local, floor),
            None => self.default_tile,
        }
    }

    pub fn set_floor(&mut self, world_x: i32, world_y: i32, floor: i32, value: T)
        requires
            old(self).wf(),
            floor_in_range(floor as int),
        ensures
            final(self).wf(),
            final(self).wrote(*old(self), world_x as int, world_y as int, floor as int, value),
    {
        let (coord, local) = world_to_chunk_local(world_x, world_y);
        let chunk = self.get_or_create_chunk(coord);
        chunk.set_local_floor(local, floor, value);
    }

    pub fn has_chunk(&self, coord: ChunkCoord) -> (held: bool)
        ensures
            held == self.has(coord),
    {
        let key: u64 = chunk_key(coord);
        self.chunks.contains_key(&key)
    }

    pub fn loaded_chunk_count(&self) -> (count: usize)
        ensures
            count == self.loaded_coords().len(),
    {
        self.loaded.len()
    }

    /// Every chunk coordinate currently held in memory.
    pub fn loaded_chunks(&self) -> (coords: Vec<ChunkCoord>)
        ensures
            coords@ == self.loaded_coords(),
    {
        let mut coords: Vec<ChunkCoord> = Vec::with_capacity(self.loaded.len());
        let mut i: usize = 0;
        while i < self.loaded.len()
            invariant
                i <= self.loaded@.len(),
                coords@ == self.loaded@.take(i as int),
            decreases self.loaded@.len() - i,
        {
            coords.push(self.loaded[i]);
            i += 1;
            assert(coords@ =~= self.loaded@.take(i as int));
        }
        assert(coords@ =~= self.loaded@);
        coords
    }

    pub fn get_chunk(&self, coord: ChunkCoord) -> (chunk: Option<&HypermapChunk<T>>)
        requires
            self.wf(),
        ensures
            match chunk {
                Some(held) => self.has(coord) && *held == self.chunk(coord) && held.wf(),
                None => !self.has(coord),
            },
    {
        let key: u64 = chunk_key(coord);
        self.chunks.get(&key)
    }

    /// Access to one chunk for writing, creating it lazily from the default tile.
    pub fn get_or_create_chunk(&mut self, coord: ChunkCoord) -> (chunk: &mut HypermapChunk<T>)
        requires
            old(self).wf(),
        ensures
            chunk.wf(),
            old(self).shows(coord, *chunk),
            old(self).has(coord) ==> *chunk == old(self).chunk(coord),
            final(chunk).wf() ==> final(self).wf(),
            final(self).replaced_chunk(*old(self), coord, *final(chunk)),
    {
        let ghost before = *self;
        let key: u64 = chunk_key(coord);
        if !self.has_chunk(coord) {
            self.loaded.push(coord);
            let fresh = HypermapChunk::new(&self.default_tile);
            self.chunks.insert(key, fresh);
            proof {
                assert(self.loaded@[before.loaded@.len() as int] == coord);
                assert forall|c: ChunkCoord| before.loaded@.contains(c) implies self.loaded@.contains(
                    c,
                ) by {
                    let i = choose|i: int| 0 <= i < before.loaded@.len() && before.loaded@[i] == c;
                    assert(self.loaded@[i] == c);
                }
                assert(self.wf());
            }
        }
        let blank = HypermapChunk::empty();
        self.chunks.entry(key).or_insert(blank)
    }

    /// Updates a world tile on **ground floor** (`0`) in place.
    pub fn update<F>(&mut self, world_x: i32, world_y: i32, f: F)
        where F: FnOnce(&mut T)
        requires
            old(self).wf(),
            forall|cell: &mut T|
                *cell == old(self).tile(world_x as int, world_y as int, 0)
                    ==> #[trigger] call_requires(f, (cell,)),
        ensures
            final(self).wf(),
            exists|cell: &mut T|
                *cell == old(self).tile(world_x as int, world_y as int, 0)
                    && #[trigger] call_ensures(f, (cell,), ()) && final(self).wrote(
                    *old(self),
                    world_x as int,
                    world_y as int,
                    0,
                    *final(cell),
                ),
    {
        let (coord, local) = world_to_chunk_local(world_x, world_y);
        let chunk = self.get_or_create_chunk(coord);
        let cell = chunk.get_local_mut(local);
        f(cell);
    }

    /// Applies a closure to one chunk with write access, creating it lazily.
    pub fn with_chunk_write<R, F>(&mut self, coord: ChunkCoord, f: F) -> (result: R)
        where F: FnOnce(&mut HypermapChunk<T>) -> R
        requires
            old(self).wf(),
            forall|chunk: &mut HypermapChunk<T>|
                (chunk.wf() && old(self).shows(coord, *chunk))
                    ==> #[trigger] call_requires(f, (chunk,)),
            forall|chunk: &mut HypermapChunk<T>, r: R|
                (chunk.wf() && #[trigger] call_ensures(f, (chunk,), r)) ==> final(chunk).wf(),
        ensures
            final(self).wf(),
            exists|chunk: &mut HypermapChunk<T>|
                chunk.wf() && old(self).shows(coord, *chunk) && #[trigger] call_ensures(
                    f,
                    (chunk,),
                    result,
                ) && final(self).replaced_chunk(*old(self), coord, *final(chunk)),
    {
        let chunk = self.get_or_create_chunk(coord);
        f(chunk)
    }

    /// Whether `chunk` shows the same tiles as the map does at `coord`.
    pub open spec fn shows(self, coord: ChunkCoord, chunk: HypermapChunk<T>) -> bool {
        forall|l: LocalCoord, f: int|
            l.in_chunk() && floor_in_range(f) ==> #[trigger] chunk.at(l, f) == self.tile_in(
                coord,
                l,
                f,
            )
    }

    /// How the map looks after the chunk at `coord` was replaced by `chunk`.
    pub open spec fn replaced_chunk(
        self,
        before: Self,
        coord: ChunkCoord,
        chunk: HypermapChunk<T>,
    ) -> bool {
        &&& self.default_value() == before.default_value()
        &&& self.loaded_coords() == if before.has(coord) {
            before.loaded_coords()
        } else {
            before.loaded_coords().push(coord)
        }
        &&& forall|c: ChunkCoord| #[trigger] self.has(c) <==> before.has(c) || c == coord
        &&& self.chunk(coord) == chunk
        &&& forall|c: ChunkCoord| c != coord ==> #[trigger] self.chunk(c) == before.chunk(c)
    }

    /// Applies a closure to one chunk with read access if loaded.
    pub fn with_chunk_read<R, F>(&self, coord: ChunkCoord, f: F) -> (result: Option<R>)
        where F: FnOnce(&HypermapChunk<T>) -> R
        requires
            self.wf(),
            self.has(coord) ==> call_requires(f, (&self.chunk(coord),)),
        ensures
            match result {
                Some(r) => self.has(coord) && call_ensures(f, (&self.chunk(coord),), r),
                None => !self.has(coord),
            },
    {
        match self.get_chunk(coord) {
            Some(held) => Some(f(held)),
            None => None,
        }
    }

    /// Forgets one chunk: its tiles read as the default tile again.
    pub fn remove_chunk(&mut self, coord: ChunkCoord)
        requires
            old(self).wf(),
        ensures
            final(self).wf(),
            final(self).default_value() == old(self).default_value(),
            final(self).loaded_coords() == if old(self).has(coord) {
                old(self).loaded_coords().remove(old(self).loaded_coords().index_of(coord))
            } else {
                old(self).loaded_coords()
            },
            forall|c: ChunkCoord| #[trigger]
                final(self).has(c) <==> old(self).has(c) && c != coord,
            forall|c: ChunkCoord|
                c != coord ==> #[trigger] final(self).chunk(c) == old(self).chunk(c),
    {
        if !self.has_chunk(coord) {
            return;
        }
        let ghost before = *self;
        proof {
            assert(self.loaded@.contains(coord));
        }
        let key: u64 = chunk_key(coord);
        self.chunks.remove(&key);
        let count: usize = self.loaded.len();
        let mut i: usize = 0;
        while self.loaded[i] != coord
            invariant
                i < count,
                count == self.loaded@.len(),
                self.loaded@ == before.loaded@,
                self.loaded@.contains(coord),
                forall|j: int| 0 <= j < i ==> self.loaded@[j] != coord,
            decreases self.loaded@.len() - i,
        {
            i += 1;
            proof {
                let k = choose|k: int| 0 <= k < self.loaded@.len() && self.loaded@[k] == coord;
                assert(k >= i);
            }
        }
        self.loaded.remove(i);
        proof {
            let at = i as int;
            let all = before.loaded@;
            assert(all.index_of(coord) == at);
            assert forall|c: ChunkCoord| #[trigger] self.has(c) <==> before.has(c) && c != coord by {
                lemma_keys_unique(c, coord);
            }
            assert forall|j: int| 0 <= j < self.loaded@.len() implies self.chunks@.contains_key(
                (#[trigger] self.loaded@[j]).key() as u64,
            ) by {
                let k = if j < at { j } else { j + 1 };
                assert(self.loaded@[j] == all[k]);
                assert(before.chunks@.contains_key(all[k].key() as u64));
                assert(all[k] != coord);
                assert(before.has(all[k]));
                assert(self.has(all[k]));
            }
            assert forall|c: ChunkCoord| #[trigger] self.chunks@.contains_key(
                c.key() as u64,
            ) implies self.loaded@.contains(c) by {
                assert(self.has(c));
                assert(before.has(c));
                assert(all.contains(c));
                let k = choose|k: int| 0 <= k < all.len() && all[k] == c;
                let j = if k < at { k } else { k - 1 };
                assert(self.loaded@[j] == c);
            }
            assert forall|c: ChunkCoord| c != coord implies #[trigger] self.chunk(c)
                == before.chunk(c) by {
                lemma_keys_unique(c, coord);
            }
        }
    }

    /// Removes all chunks and hands them out as a map of their own.
    fn drain_chunks(&mut self) -> (taken: Self)
        requires
            old(self).wf(),
        ensures
            taken == *old(self),
            final(self).wf(),
            final(self).default_value() == old(self).default_value(),
            final(self).loaded_coords() == Seq::<ChunkCoord>::empty(),
            forall|c: ChunkCoord| !#[trigger] final(self).has(c),
    {
        let mut other: Hypermap<T> = Hypermap::new(self.default_tile);
        std::mem::swap(&mut other, self);
        other
    }

    /// Replaces the chunk table wholesale. Previous contents are dropped.
    fn replace_chunks(&mut self, new_chunks: Self)
        requires
            old(self).wf(),
            new_chunks.wf(),
        ensures
            final(self).wf(),
            final(self).default_value() == old(self).default_value(),
            final(self).loaded_coords() == new_chunks.loaded_coords(),
            forall|c: ChunkCoord| #[trigger] final(self).has(c) == new_chunks.has(c),
            forall|c: ChunkCoord| #[trigger] final(self).chunk(c) == new_chunks.chunk(c),
    {
        self.chunks = new_chunks.chunks;
        self.loaded = new_chunks.loaded;
    }
}

/// Different chunks have different keys.
proof fn lemma_keys_unique(a: ChunkCoord, b: ChunkCoord)
    ensures
        a.key() as u64 == b.key() as u64 ==> a == b,
{
}

/// Two [`Hypermap`]s in a front/back arrangement.
///
/// Reads hit the **read** buffer; writes hit the **write** buffer.
/// [`flush`](Self::flush) promotes the write buffer to the read side and resets
/// the write buffer to its clean (default-tile) state.
#[derive(Debug)]
pub struct DoubleBufferedHypermap<T> {
    read: Hypermap<T>,
    write: Hypermap<T>,
}

impl<T: Copy> DoubleBufferedHypermap<T> {
    /// Both buffers are sound and share their default tile.
    pub closed spec fn wf(self) -> bool {
        &&& self.read.wf()
        &&& self.write.wf()
        &&& self.read.default_value() == self.write.default_value()
    }

    /// The buffer that reads come from.
    pub closed spec fn read_side(self) -> Hypermap<T> {
        self.read
    }

    /// The buffer that writes go to.
    pub closed spec fn write_side(self) -> Hypermap<T> {
        self.write
    }

    pub fn new(default_tile: T) -> (buffers: Self)
        ensures
            buffers.wf(),
            buffers.read_side().default_value() == default_tile,
            forall|c: ChunkCoord| !#[trigger] buffers.read_side().has(c),
            forall|c: ChunkCoord| !#[trigger] buffers.write_side().has(c),
            buffers.read_side().loaded_coords() == Seq::<ChunkCoord>::empty(),
            buffers.write_side().loaded_coords() == Seq::<ChunkCoord>::empty(),
    {
        DoubleBufferedHypermap { read: Hypermap::new(default_tile), write: Hypermap::new(default_tile) }
    }

    pub fn get(&self, world_x: i32, world_y: i32) -> (value: T)
        requires
            self.wf(),
        ensures
            value == self.read_side().tile(world_x as int, world_y as int, 0),
    {
        self.read.get(world_x, world_y)
    }

    pub fn get_floor(&self, world_x: i32, world_y: i32, floor: i32) -> (value: T)
        requires
            self.wf(),
            floor_in_range(floor as int),
        ensures
            value == self.read_side().tile(world_x as int, world_y as int, floor as int),
    {
        self.read.get_floor(world_x, world_y, floor)
    }

    pub fn has_chunk(&self, coord: ChunkCoord) -> (held: bool)
        ensures
            held == self.read_side().has(coord),
    {
        self.read.has_chunk(coord)
    }

    pub fn loaded_chunk_count(&self) -> (count: usize)
        ensures
            count == self.read_side().loaded_coords().len(),
    {
        self.read.loaded_chunk_count()
    }

    pub fn loaded_chunks(&self) -> (coords: Vec<ChunkCoord>)
        ensures
            coords@ == self.read_side().loaded_coords(),
    {
        self.read.loaded_chunks()
    }

    pub fn get_chunk(&self, coord: ChunkCoord) -> (chunk: Option<&HypermapChunk<T>>)
        requires
            self.wf(),
        ensures
            match chunk {
                Some(held) => self.read_side().has(coord) && *held == self.read_side().chunk(coord)
                    && held.wf(),
                None => !self.read_side().has(coord),
            },
    {
        self.read.get_chunk(coord)
    }

    pub fn with_chunk_read<R, F>(&self, coord: ChunkCoord, f: F) -> (result: Option<R>)
        where F: FnOnce(&HypermapChunk<T>) -> R
        requires
            self.wf(),
            self.read_side().has(coord) ==> call_requires(f, (&self.read_side().chunk(coord),)),
        ensures
            match result {
                Some(r) => self.read_side().has(coord) && call_ensures(
                    f,
                    (&self.read_side().chunk(coord),),
                    r,
                ),
                None => !self.read_side().has(coord),
            },
    {
        self.read.with_chunk_read(coord, f)
    }

    pub fn set(&mut self, world_x: i32, world_y: i32, value: T)
        requires
            old(self).wf(),
        ensures
            final(self).wf(),
            final(self).read_side() == old(self).read_side(),
            final(self).write_side().wrote(
                old(self).write_side(),
                world_x as int,
                world_y as int,
                0,
                value,
            ),
    {
        self.write.set(world_x, world_y, value);
    }

    pub fn set_floor(&mut self, world_x: i32, world_y: i32, floor: i32, value: T)
        requires
            old(self).wf(),
            floor_in_range(floor as int),
        ensures
            final(self).wf(),
            final(self).read_side() == old(self).read_side(),
            final(self).write_side().wrote(
                old(self).write_side(),
                world_x as int,
                world_y as int,
                floor as int,
                value,
            ),
    {
        self.write.set_floor(world_x, world_y, floor, value);
    }

    pub fn update<F>(&mut self, world_x: i32, world_y: i32, f: F)
        where F: FnOnce(&mut T)
        requires
            old(self).wf(),
            forall|cell: &mut T|
                *cell == old(self).write_side().tile(world_x as int, world_y as int, 0)
                    ==> #[trigger] call_requires(f, (cell,)),
        ensures
            final(self).wf(),
            final(self).read_side() == old(self).read_side(),
            exists|cell: &mut T|
                *cell == old(self).write_side().tile(world_x as int, world_y as int, 0)
                    && #[trigger] call_ensures(f, (cell,), ()) && final(self).write_side().wrote(
                    old(self).write_side(),
                    world_x as int,
                    world_y as int,
                    0,
                    *final(cell),
                ),
    {
        self.write.update(world_x, world_y, f);
    }

    pub fn get_or_create_chunk(&mut self, coord: ChunkCoord) -> (chunk: &mut HypermapChunk<T>)
        requires
            old(self).wf(),
        ensures
            chunk.wf(),
            old(self).write_side().shows(coord, *chunk),
            final(chunk).wf() ==> final(self).wf(),
            final(self).read_side() == old(self).read_side(),
            final(self).write_side().replaced_chunk(
                old(self).write_side(),
                coord,
                *final(chunk),
            ),
    {
        self.write.get_or_create_chunk(coord)
    }

    pub fn with_chunk_write<R, F>(&mut self, coord: ChunkCoord, f: F) -> (result: R)
        where F: FnOnce(&mut HypermapChunk<T>) -> R
        requires
            old(self).wf(),
            forall|chunk: &mut HypermapChunk<T>|
                (chunk.wf() && old(self).write_side().shows(coord, *chunk))
                    ==> #[trigger] call_requires(f, (chunk,)),
            forall|chunk: &mut HypermapChunk<T>, r: R|
                (chunk.wf() && #[trigger] call_ensures(f, (chunk,), r)) ==> final(chunk).wf(),
        ensures
            final(self).wf(),
            final(self).read_side() == old(self).read_side(),
            exists|chunk: &mut HypermapChunk<T>|
                chunk.wf() && old(self).write_side().shows(coord, *chunk)
                    && #[trigger] call_ensures(f, (chunk,), result)
                    && final(self).write_side().replaced_chunk(
                    old(self).write_side(),
                    coord,
                    *final(chunk),
                ),
    {
        self.write.with_chunk_write(coord, f)
    }

    /// Promotes the write buffer to the read side and resets the write
    /// buffer to a clean state (all chunks dropped, reads return `default_tile`).
    pub fn flush(&mut self)
        requires
            old(self).wf(),
        ensures
            final(self).wf(),
            final(self).read_side().default_value() == old(self).read_side().default_value(),
            final(self).read_side().loaded_coords() == old(self).write_side().loaded_coords(),
            forall|c: ChunkCoord| #[trigger]
                final(self).read_side().has(c) == old(self).write_side().has(c),
            forall|c: ChunkCoord, l: LocalCoord, f: int| #[trigger]
                final(self).read_side().tile_in(c, l, f) == old(self).write_side().tile_in(c, l, f),
            final(self).write_side().loaded_coords() == Seq::<ChunkCoord>::empty(),
            forall|c: ChunkCoord| !#[trigger] final(self).write_side().has(c),
    {
        let write_chunks = self.write.drain_chunks();
        self.read.replace_chunks(write_chunks);
    }

    /// Copies every write-buffer chunk into the matching read-buffer chunk, then
    /// clears the write buffer. Unchanged read chunks are preserved (unlike [`flush`](Self::flush)).
    pub fn flush_merge(&mut self)
        requires
            old(self).wf(),
        ensures
            final(self).wf(),
            final(self).read_side().default_value() == old(self).read_side().default_value(),
            forall|c: ChunkCoord| #[trigger]
                final(self).read_side().has(c) == (old(self).read_side().has(c) || old(
                    self,
                ).write_side().has(c)),
            forall|c: ChunkCoord, l: LocalCoord, f: int|
                l.in_chunk() && floor_in_range(f) ==> #[trigger] final(self).read_side().tile_in(
                    c,
                    l,
                    f,
                ) == if old(self).write_side().has(c) {
                    old(self).write_side().tile_in(c, l, f)
                } else {
                    old(self).read_side().tile_in(c, l, f)
                },
            final(self).write_side().loaded_coords() == Seq::<ChunkCoord>::empty(),
            forall|c: ChunkCoord| !#[trigger] final(self).write_side().has(c),
    {
        let ghost before = *self;
        let taken = self.write.drain_chunks();
        let coords = taken.loaded_chunks();
        proof {
            taken.loaded_coords_are_the_held_chunks();
        }
        let mut i: usize = 0;
        while i < coords.len()
            invariant
                i <= coords@.len(),
                taken == before.write,
                coords@ == taken.loaded_coords(),
                taken.wf(),
                self.wf(),
                self.write.loaded_coords() == Seq::<ChunkCoord>::empty(),
                forall|c: ChunkCoord| !#[trigger] self.write.has(c),
                self.read.default_value() == before.read.default_value(),
                forall|c: ChunkCoord| coords@.contains(c) <==> #[trigger] taken.has(c),
                forall|c: ChunkCoord| #[trigger]
                    self.read.has(c) == (before.read.has(c) || coords@.take(i as int).contains(c)),
                forall|c: ChunkCoord, l: LocalCoord, f: int|
                    l.in_chunk() && floor_in_range(f) ==> #[trigger] self.read.tile_in(c, l, f)
                        == if coords@.take(i as int).contains(c) {
                        taken.tile_in(c, l, f)
                    } else {
                        before.read.tile_in(c, l, f)
                    },
            decreases coords@.len() - i,
        {
            let coord: ChunkCoord = coords[i];
            assert(coords@.contains(coord));
            assert(taken.has(coord));
            let ghost prior = self.read;
            match taken.get_chunk(coord) {
                Some(source) => {
                    let target = self.read.get_or_create_chunk(coord);
                    target.copy_cells_from(source);
                },
                None => {},
            }
            proof {
                let done = coords@.take(i as int);
                let next = coords@.take(i + 1);
                assert(next =~= done.push(coord));
                assert forall|c: ChunkCoord| next.contains(c) <==> (done.contains(c) || c
                    == coord) by {
                    if next.contains(c) {
                        let k = choose|k: int| 0 <= k < next.len() && next[k] == c;
                        if k < i {
                            assert(done[k] == c);
                        }
                    }
                    if done.contains(c) {
                        let k = choose|k: int| 0 <= k < done.len() && done[k] == c;
                        assert(next[k] == c);
                    }
                    assert(next[i as int] == coord);
                }
                assert forall|c: ChunkCoord, l: LocalCoord, f: int|
                    l.in_chunk() && floor_in_range(f) implies #[trigger] self.read.tile_in(c, l, f)
                    == if next.contains(c) {
                    taken.tile_in(c, l, f)
                } else {
                    before.read.tile_in(c, l, f)
                } by {
                    if c != coord {
                        assert(self.read.tile_in(c, l, f) == prior.tile_in(c, l, f));
                    }
                }
            }
            i += 1;
        }
        assert(coords@.take(coords@.len() as int) =~= coords@);
    }

    /// Direct access to the read-side [`Hypermap`].
    pub fn read_map(&self) -> (map: &Hypermap<T>)
        requires
            self.wf(),
        ensures
            *map == self.read_side(),
            map.wf(),
    {
        &self.read
    }

    /// Direct access to the write-side [`Hypermap`].
    pub fn write_map(&self) -> (map: &Hypermap<T>)
        requires
            self.wf(),
        ensures
            *map == self.write_side(),
            map.wf(),
    {
        &self.write
    }

    /// Direct access to the read-side [`Hypermap`] for writing.
    pub fn read_map_mut(&mut self) -> (map: &mut Hypermap<T>)
        requires
            old(self).wf(),
        ensures
            *map == old(self).read_side(),
            map.wf(),
            final(self).read_side() == *final(map),
            final(self).write_side() == old(self).write_side(),
            (final(map).wf() && final(map).default_value() == map.default_value())
                ==> final(self).wf(),
    {
        &mut self.read
    }

    /// Direct access to the write-side [`Hypermap`] for writing.
    pub fn write_map_mut(&mut self) -> (map: &mut Hypermap<T>)
        requires
            old(self).wf(),
        ensures
            *map == old(self).write_side(),
            map.wf(),
            final(self).write_side() == *final(map),
            final(self).read_side() == old(self).read_side(),
            (final(map).wf() && final(map).default_value() == map.default_value())
                ==> final(self).wf(),
    {
        &mut self.write
    }
}

/// A read gives back what was written: after one write the written tile and floor
/// read as the value, every other tile and floor reads as before, and so does
/// every tile of a chunk that was never written.
pub proof fn read_gives_back_the_write<T: Copy>(
    before: Hypermap<T>,
    after: Hypermap<T>,
    wx: i32,
    wy: i32,
    floor: int,
    value: T,
    x: i32,
    y: i32,
    f: int,
)
    requires
        before.wf(),
        after.wrote(before, wx as int, wy as int, floor, value),
        floor_in_range(floor),
        floor_in_range(f),
    ensures
        after.tile(wx as int, wy as int, floor) == value,
        (x, y, f) != (wx, wy, floor) ==> after.tile(x as int, y as int, f) == before.tile(
            x as int,
            y as int,
            f,
        ),
{
    lemma_tile_recovered(wx, wy);
    lemma_tile_recovered(x, y);
}

/// Two flushes with nothing written between them leave every tile at the default.
pub proof fn second_flush_clears_reads<T: Copy>(
    first: DoubleBufferedHypermap<T>,
    second: DoubleBufferedHypermap<T>,
    wx: i32,
    wy: i32,
    floor: int,
)
    requires
        first.wf(),
        forall|c: ChunkCoord| !#[trigger] first.write_side().has(c),
        second.read_side().default_value() == first.read_side().default_value(),
        forall|c: ChunkCoord| #[trigger]
            second.read_side().has(c) == first.write_side().has(c),
    ensures
        second.read_side().tile(wx as int, wy as int, floor)
            == first.read_side().default_value(),
{
}

} // verus!
