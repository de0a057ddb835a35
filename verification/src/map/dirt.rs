//! Ground-floor dirt of a fresh chunk: hotspots that spread over walkable ground.
//!
//! Dirt is counted in millionths of fully dirty.
use rand::rngs::StdRng;
use vstd::prelude::*;

use crate::flood::{flood_distances, flood_step, steps_away, TileField};
pub use crate::map::field_interactions::{DIRT_CLAMP_MAX, DIRT_TRACK_DEPOSIT};
use crate::map::hypermap::{floor_in_range, random_rng_seed, ChunkCoord, Hypermap, LocalCoord};
use crate::map::hypermap_world::streaming::{
    drop_chunk, lemma_without, lists, note_chunk, without,
};
use crate::map::interactive_entity::sync::in_world;
use crate::map::search::{adjacent, walkable, Tile};
use crate::map::world_map::CellType;
use crate::reach::{reaches_within, walks};
use crate::rng;
use crate::text::same_text;

verus! {

/// Hotspots per chunk, where there is room for them.
pub const HOTSPOT_COUNT: usize = 200;

/// Furthest that a hotspot spreads.
pub const HOTSPOT_RADIUS: u32 = 20;

/// Tiles of one chunk.
const CHUNK_TILES: usize = 16_384;

/// The world tile at place `i` of a chunk: columns run fastest.
pub open spec fn tile_at_place(coord: ChunkCoord, i: int) -> Tile {
    ((coord.x * 128 + i % 128) as i32, (coord.y * 128 + i / 128) as i32)
}

/// The walkable ones of the first `n` tiles of a chunk.
pub open spec fn passable_in(map: Hypermap<bool>, coord: ChunkCoord, n: nat) -> Seq<Tile>
    decreases n,
{
    if n == 0 {
        seq![]
    } else {
        let before = passable_in(map, coord, (n - 1) as nat);
        let t = tile_at_place(coord, n - 1);
        if walkable(map, t) {
            before.push(t)
        } else {
            before
        }
    }
}

/// The walkable tiles of a chunk, row by row.
pub fn passable_tiles_of_chunk(passability: &Hypermap<bool>, coord: ChunkCoord) -> (tiles: Vec<
    (i32, i32),
>)
    requires
        passability.wf(),
        in_world(coord),
    ensures
        tiles@ == passable_in(*passability, coord, 16_384),
{
    let mut tiles: Vec<(i32, i32)> = Vec::new();
    let mut i: usize = 0;
    while i < CHUNK_TILES
        invariant
            i <= CHUNK_TILES,
            passability.wf(),
            in_world(coord),
            tiles@ == passable_in(*passability, coord, i as nat),
        decreases CHUNK_TILES - i,
    {
        let wx: i32 = coord.x * 128 + (i % 128) as i32;
        let wy: i32 = coord.y * 128 + (i / 128) as i32;
        if passability.get(wx, wy) {
            tiles.push((wx, wy));
        }
        i += 1;
    }
    tiles
}

/// Dirt spreads to walkable neighbours; walls block it.
pub open spec fn dirt_step(map: Hypermap<bool>) -> spec_fn(Tile, Tile) -> bool {
    |a: Tile, b: Tile| adjacent(a, b) && walkable(map, b)
}

struct OpenGround<'a> {
    map: &'a Hypermap<bool>,
}

impl<'a> TileField for OpenGround<'a> {
    closed spec fn valid(&self) -> bool {
        self.map.wf()
    }

    closed spec fn spreads(&self, a: Tile, b: Tile) -> bool {
        adjacent(a, b) && walkable(*self.map, b)
    }

    closed spec fn denies(&self, a: Tile, b: Tile) -> bool {
        !self.spreads(a, b)
    }

    proof fn spreads_to_neighbours(&self) {
    }

    fn can_spread(&self, a: (i32, i32), b: (i32, i32)) -> (yes: bool) {
        self.map.get(b.0, b.1)
    }
}

/// What a hotspot adds to a tile: the wave's height at the number of steps between them, and
/// nothing beyond its radius.
pub open spec fn hotspot_adds(
    map: Hypermap<bool>,
    wave: Seq<u32>,
    center: Tile,
    t: Tile,
) -> int {
    if reaches_within(dirt_step(map), center, t, 20) {
        wave[choose|d: int| 0 <= d <= 20 && steps_away(dirt_step(map), center, t, d)] as int
    } else {
        0
    }
}

/// What the first `n` hotspots add to a tile.
pub open spec fn dirt_sum(
    map: Hypermap<bool>,
    wave: Seq<u32>,
    centers: Seq<Tile>,
    t: Tile,
    n: nat,
) -> int
    decreases n,
{
    if n == 0 {
        0
    } else {
        dirt_sum(map, wave, centers, t, (n - 1) as nat) + hotspot_adds(map, wave, centers[n - 1], t)
    }
}

/// At most fully dirty.
pub open spec fn clamped(dirt: int) -> int {
    if dirt > 1_000_000 {
        1_000_000
    } else {
        dirt
    }
}

/// Dirt of every tile of a chunk.
pub open spec fn shows_dirt(
    values: Seq<u32>,
    map: Hypermap<bool>,
    wave: Seq<u32>,
    centers: Seq<Tile>,
    coord: ChunkCoord,
    n: nat,
) -> bool {
    values.len() == 16_384 && forall|i: int|
        0 <= i < 16_384 ==> #[trigger] values[i] == clamped(
            dirt_sum(map, wave, centers, tile_at_place(coord, i), n),
        )
}

proof fn lemma_steps_unique(step: spec_fn(Tile, Tile) -> bool, a: Tile, b: Tile, d: int, e: int)
    requires
        steps_away(step, a, b, d),
        steps_away(step, a, b, e),
        d >= 0,
        e >= 0,
    ensures
        d == e,
{
    if d < e {
        let path = choose|path: Seq<Tile>| walks(step, a, b, path) && path.len() <= d + 1;
        assert(walks(step, a, b, path) && path.len() <= e - 1 + 1);
    }
    if e < d {
        let path = choose|path: Seq<Tile>| walks(step, a, b, path) && path.len() <= e + 1;
        assert(walks(step, a, b, path) && path.len() <= d - 1 + 1);
    }
}

/// Whether one of the first `n` reached tiles is `t`, and how far it is.
spec fn reached_at(reached: Seq<(Tile, u32)>, t: Tile, n: int, j: int) -> bool {
    0 <= j < n && reached[j].0 == t
}

/// Adds one hotspot to the dirt of a chunk.
fn add_hotspot(
    passability: &Hypermap<bool>,
    coord: ChunkCoord,
    center: (i32, i32),
    wave: &Vec<u32>,
    values: &mut Vec<u32>,
)
    requires
        passability.wf(),
        in_world(coord),
        wave@.len() == 21,
        old(values)@.len() == 16_384,
        forall|i: int| 0 <= i < 16_384 ==> #[trigger] old(values)@[i] <= 1_000_000,
    ensures
        final(values)@.len() == 16_384,
        forall|i: int|
            0 <= i < 16_384 ==> #[trigger] final(values)@[i] == clamped(
                old(values)@[i] + hotspot_adds(
                    *passability,
                    wave@,
                    center,
                    tile_at_place(coord, i),
                ),
            ),
{
    let ghost before = values@;
    let ghost step = dirt_step(*passability);
    let field = OpenGround { map: passability };
    assert(flood_step(field) =~= step);
    let reached = flood_distances(&field, center, HOTSPOT_RADIUS);
    let mut k: usize = 0;
    while k < reached.len()
        invariant
            k <= reached@.len(),
            in_world(coord),
            wave@.len() == 21,
            values@.len() == 16_384,
            before.len() == 16_384,
            forall|i: int| 0 <= i < 16_384 ==> #[trigger] before[i] <= 1_000_000,
            forall|i: int, j: int|
                0 <= i < j < reached@.len() ==> (#[trigger] reached@[i]).0 != (
                #[trigger] reached@[j]).0,
            forall|i: int| 0 <= i < reached@.len() ==> (#[trigger] reached@[i]).1 <= 20,
            forall|i: int, j: int|
                0 <= i < 16_384 && #[trigger] reached_at(
                    reached@,
                    tile_at_place(coord, i),
                    k as int,
                    j,
                ) ==> values@[i] == clamped(before[i] + wave@[reached@[j].1 as int]),
            forall|i: int|
                0 <= i < 16_384 && (forall|j: int|
                    !#[trigger] reached_at(reached@, tile_at_place(coord, i), k as int, j))
                    ==> #[trigger] values@[i] == before[i],
        decreases reached@.len() - k,
    {
        let (tile, dist) = reached[k];
        assert(reached@[k as int].1 <= 20);
        let lx: i64 = tile.0 as i64 - coord.x as i64 * 128;
        let ly: i64 = tile.1 as i64 - coord.y as i64 * 128;
        let ghost mid = values@;
        if 0 <= lx && lx < 128 && 0 <= ly && ly < 128 {
            let at: usize = (ly * 128 + lx) as usize;
            assert(tile_at_place(coord, at as int) == tile);
            proof {
                assert forall|j: int| !#[trigger] reached_at(reached@, tile, k as int, j) by {
                    if reached_at(reached@, tile, k as int, j) {
                        assert(reached@[j].0 != reached@[k as int].0);
                    }
                }
                assert(mid[at as int] == before[at as int]);
            }
            let sum: u64 = values[at] as u64 + wave[dist as usize] as u64;
            let capped: u32 = if sum > DIRT_CLAMP_MAX as u64 {
                DIRT_CLAMP_MAX
            } else {
                sum as u32
            };
            values.set(at, capped);
            proof {
                assert forall|i: int| 0 <= i < 16_384 && i != at implies tile_at_place(coord, i)
                    != tile by {
                    lemma_places_differ(coord, i, at as int);
                }
            }
        } else {
            proof {
                assert forall|i: int| 0 <= i < 16_384 implies #[trigger] tile_at_place(coord, i)
                    != tile by {
                    let t = tile_at_place(coord, i);
                    assert(t.0 == coord.x * 128 + i % 128 && t.1 == coord.y * 128 + i / 128);
                }
            }
        }
        proof {
            assert forall|i: int, j: int|
                0 <= i < 16_384 && #[trigger] reached_at(
                    reached@,
                    tile_at_place(coord, i),
                    k + 1,
                    j,
                ) implies values@[i] == clamped(before[i] + wave@[reached@[j].1 as int]) by {
                if j < k {
                    assert(reached_at(reached@, tile_at_place(coord, i), k as int, j));
                    assert(reached@[j].0 != reached@[k as int].0);
                }
            }
            assert forall|i: int|
                0 <= i < 16_384 && (forall|j: int|
                    !#[trigger] reached_at(reached@, tile_at_place(coord, i), k + 1, j))
                implies #[trigger] values@[i] == before[i] by {
                assert(!reached_at(reached@, tile_at_place(coord, i), k + 1, k as int));
                assert forall|j: int| !#[trigger] reached_at(
                    reached@,
                    tile_at_place(coord, i),
                    k as int,
                    j,
                ) by {
                    assert(!reached_at(reached@, tile_at_place(coord, i), k + 1, j));
                }
                assert(mid[i] == before[i]);
            }
        }
        k += 1;
    }
    proof {
        let n = reached@.len() as int;
        assert forall|i: int| 0 <= i < 16_384 implies #[trigger] values@[i] == clamped(
            before[i] + hotspot_adds(*passability, wave@, center, tile_at_place(coord, i)),
        ) by {
            let t = tile_at_place(coord, i);
            if reaches_within(step, center, t, 20) {
                let j = choose|j: int| 0 <= j < reached@.len() && (#[trigger] reached@[j]).0 == t;
                assert(reached_at(reached@, t, n, j));
                let d = reached@[j].1 as int;
                assert(steps_away(step, center, t, d));
                let e = choose|e: int| 0 <= e <= 20 && steps_away(step, center, t, e);
                lemma_steps_unique(step, center, t, d, e);
            } else {
                assert forall|j: int| !#[trigger] reached_at(reached@, t, n, j) by {
                    if reached_at(reached@, t, n, j) {
                        let d = reached@[j].1 as int;
                        assert(steps_away(step, center, t, d));
                        crate::flood::lemma_within_more(step, center, t, d, 20);
                    }
                }
            }
        }
    }
}

proof fn lemma_places_differ(coord: ChunkCoord, i: int, j: int)
    requires
        in_world(coord),
        0 <= i < 16_384,
        0 <= j < 16_384,
        i != j,
    ensures
        tile_at_place(coord, i) != tile_at_place(coord, j),
{
    let a = tile_at_place(coord, i);
    let b = tile_at_place(coord, j);
    assert(a.0 == coord.x * 128 + i % 128 && a.1 == coord.y * 128 + i / 128);
    assert(b.0 == coord.x * 128 + j % 128 && b.1 == coord.y * 128 + j / 128);
}

/// The dirt of a chunk with the given hotspots. Each spreads over walkable ground, as high
/// as `wave` says for every number of steps; where hotspots meet their dirt adds up to at
/// most fully dirty.
pub fn dirt_of_hotspots(
    passability: &Hypermap<bool>,
    coord: ChunkCoord,
    centers: &Vec<(i32, i32)>,
    wave: &Vec<u32>,
) -> (values: Vec<u32>)
    requires
        passability.wf(),
        in_world(coord),
        wave@.len() == 21,
    ensures
        shows_dirt(values@, *passability, wave@, centers@, coord, centers@.len()),
{
    let mut values: Vec<u32> = Vec::with_capacity(CHUNK_TILES);
    let mut i: usize = 0;
    while i < CHUNK_TILES
        invariant
            i <= CHUNK_TILES,
            values@.len() == i,
            forall|j: int| 0 <= j < i ==> values@[j] == 0,
        decreases CHUNK_TILES - i,
    {
        values.push(0);
        i += 1;
    }
    let mut k: usize = 0;
    while k < centers.len()
        invariant
            k <= centers@.len(),
            passability.wf(),
            in_world(coord),
            wave@.len() == 21,
            shows_dirt(values@, *passability, wave@, centers@, coord, k as nat),
        decreases centers@.len() - k,
    {
        let ghost before = values@;
        add_hotspot(passability, coord, centers[k], wave, &mut values);
        proof {
            assert forall|j: int| 0 <= j < 16_384 implies #[trigger] values@[j] == clamped(
                dirt_sum(
                    *passability,
                    wave@,
                    centers@,
                    tile_at_place(coord, j),
                    (k + 1) as nat,
                ),
            ) by {
                assert(before[j] == clamped(
                    dirt_sum(*passability, wave@, centers@, tile_at_place(coord, j), k as nat),
                ));
            }
        }
        k += 1;
    }
    values
}

/// Random hotspots among the tiles.
fn pick_hotspots(rng: &mut StdRng, tiles: &Vec<(i32, i32)>, count: usize) -> (centers: Vec<
    (i32, i32),
>)
    requires
        tiles@.len() > 0,
    ensures
        centers@.len() == count,
        forall|i: int| 0 <= i < count ==> tiles@.contains(#[trigger] centers@[i]),
{
    let mut centers: Vec<(i32, i32)> = Vec::new();
    let mut i: usize = 0;
    while i < count
        invariant
            i <= count,
            tiles@.len() > 0,
            centers@.len() == i,
            forall|j: int| 0 <= j < i ==> tiles@.contains(#[trigger] centers@[j]),
        decreases count - i,
    {
        let at: usize = rng::index_below(rng, tiles.len());
        assert(tiles@.contains(tiles@[at as int]));
        centers.push(tiles[at]);
        i += 1;
    }
    centers
}

/// Whether the hotspots are as many as a chunk gets, all on its walkable tiles.
pub open spec fn hotspots_of(map: Hypermap<bool>, coord: ChunkCoord, centers: Seq<Tile>) -> bool {
    let tiles = passable_in(map, coord, 16_384);
    &&& centers.len() == if tiles.len() < 200 {
        tiles.len()
    } else {
        200
    }
    &&& forall|i: int| 0 <= i < centers.len() ==> tiles.contains(#[trigger] centers[i])
}

/// Dirt for a chunk that has none yet, from fresh random hotspots; a chunk with fewer than
/// two walkable tiles stays clean.
pub fn seed_chunk(passability: &Hypermap<bool>, coord: ChunkCoord, wave: &Vec<u32>) -> (values:
    Option<Vec<u32>>)
    requires
        passability.wf(),
        in_world(coord),
        wave@.len() == 21,
    ensures
        values is None <==> passable_in(*passability, coord, 16_384).len() < 2,
        values matches Some(v) ==> exists|centers: Seq<Tile>| #[trigger]
            hotspots_of(*passability, coord, centers) && shows_dirt(
                v@,
                *passability,
                wave@,
                centers,
                coord,
                centers.len(),
            ),
{
    let tiles = passable_tiles_of_chunk(passability, coord);
    if tiles.len() < 2 {
        return None;
    }
    let mut rng = rng::seeded(random_rng_seed());
    let count: usize = if tiles.len() < HOTSPOT_COUNT {
        tiles.len()
    } else {
        HOTSPOT_COUNT
    };
    let centers = pick_hotspots(&mut rng, &tiles, count);
    let values = dirt_of_hotspots(passability, coord, &centers, wave);
    assert(hotspots_of(*passability, coord, centers@));
    Some(values)
}

/// A tile that no hotspot can walk to within its radius stays clean.
pub proof fn walls_keep_dirt_out(
    map: Hypermap<bool>,
    wave: Seq<u32>,
    centers: Seq<Tile>,
    t: Tile,
    n: nat,
)
    requires
        n <= centers.len(),
        forall|i: int|
            0 <= i < n ==> !reaches_within(dirt_step(map), #[trigger] centers[i], t, 20),
    ensures
        dirt_sum(map, wave, centers, t, n) == 0,
    decreases n,
{
    if n > 0 {
        walls_keep_dirt_out(map, wave, centers, t, (n - 1) as nat);
        assert(!reaches_within(dirt_step(map), centers[n - 1], t, 20));
    }
}

/// Which chunks have their dirt, which must be drawn again, and which level's saved dirt has
/// been read.
#[derive(Debug)]
pub struct DirtLedger {
    pub seeded_chunks: Vec<ChunkCoord>,
    pub dirty_chunks: Vec<ChunkCoord>,
    pub hydrated_level: Option<String>,
}

impl DirtLedger {
    pub fn new() -> (ledger: Self)
        ensures
            ledger.seeded_chunks@ == Seq::<ChunkCoord>::empty(),
            ledger.dirty_chunks@ == Seq::<ChunkCoord>::empty(),
            ledger.hydrated_level is None,
    {
        DirtLedger { seeded_chunks: Vec::new(), dirty_chunks: Vec::new(), hydrated_level: None }
    }

    /// Whether a chunk needs its dirt: it is in the world and has none yet.
    pub fn needs_seed(&self, coord: ChunkCoord, in_world: bool) -> (needs: bool)
        ensures
            needs == (in_world && !self.seeded_chunks@.contains(coord)),
    {
        in_world && !lists(&self.seeded_chunks, coord)
    }

    /// Notes the level that is played; true when its saved dirt has not been read yet.
    pub fn hydrate(&mut self, level_name: &str) -> (read: bool)
        ensures
            read <==> !(old(self).hydrated_level matches Some(level) && level@ == level_name@),
            final(self).hydrated_level matches Some(level) && level@ == level_name@,
            final(self).seeded_chunks == old(self).seeded_chunks,
            final(self).dirty_chunks == old(self).dirty_chunks,
    {
        let known: bool = match &self.hydrated_level {
            Some(level) => same_text(level.as_str(), level_name),
            None => false,
        };
        if known {
            return false;
        }
        self.hydrated_level = Some(level_name.to_owned());
        true
    }

    /// Marks a chunk whose dirt must be drawn again.
    pub fn mark_dirty(&mut self, coord: ChunkCoord)
        ensures
            final(self).dirty_chunks@ == if old(self).dirty_chunks@.contains(coord) {
                old(self).dirty_chunks@
            } else {
                old(self).dirty_chunks@.push(coord)
            },
            final(self).seeded_chunks == old(self).seeded_chunks,
            final(self).hydrated_level == old(self).hydrated_level,
    {
        note_chunk(&mut self.dirty_chunks, coord);
    }

    /// Notes that a chunk has its dirt, and that it must be drawn.
    pub fn mark_seeded(&mut self, coord: ChunkCoord)
        ensures
            final(self).seeded_chunks@ == if old(self).seeded_chunks@.contains(coord) {
                old(self).seeded_chunks@
            } else {
                old(self).seeded_chunks@.push(coord)
            },
            final(self).dirty_chunks@ == if old(self).dirty_chunks@.contains(coord) {
                old(self).dirty_chunks@
            } else {
                old(self).dirty_chunks@.push(coord)
            },
            final(self).hydrated_level == old(self).hydrated_level,
    {
        note_chunk(&mut self.seeded_chunks, coord);
        note_chunk(&mut self.dirty_chunks, coord);
    }

    /// Hands out the chunks that must be drawn again and forgets them.
    pub fn take_dirty_chunks(&mut self) -> (chunks: Vec<ChunkCoord>)
        ensures
            chunks@ == old(self).dirty_chunks@,
            final(self).dirty_chunks@ == Seq::<ChunkCoord>::empty(),
            final(self).seeded_chunks == old(self).seeded_chunks,
            final(self).hydrated_level == old(self).hydrated_level,
    {
        let mut chunks: Vec<ChunkCoord> = Vec::new();
        std::mem::swap(&mut chunks, &mut self.dirty_chunks);
        chunks
    }

    /// Forgets a chunk's dirt so that it is seeded again.
    pub fn reset_chunk_for_regeneration(&mut self, coord: ChunkCoord)
        ensures
            final(self).seeded_chunks@ == without(old(self).seeded_chunks@, coord),
            !final(self).seeded_chunks@.contains(coord),
            final(self).dirty_chunks == old(self).dirty_chunks,
            final(self).hydrated_level == old(self).hydrated_level,
    {
        proof {
            lemma_without(self.seeded_chunks@, coord);
        }
        drop_chunk(&mut self.seeded_chunks, coord);
    }
}

/// What to do about the dirt of a chunk.
#[derive(Debug, Clone, Copy, PartialEq, Eq, Structural)]
pub enum SeedStep {
    /// The chunk is not in the world or has its dirt already.
    Leave,
    /// The level's saved dirt holds the chunk.
    UseSaved,
    /// The chunk has no dirt yet.
    Seed,
}

impl DirtLedger {
    /// A chunk of the world is seeded once, and only where no saved dirt holds it.
    pub open spec fn step_for(self, coord: ChunkCoord, in_world: bool, saved: bool) -> SeedStep {
        if !in_world || self.seeded_chunks@.contains(coord) {
            SeedStep::Leave
        } else if saved {
            SeedStep::UseSaved
        } else {
            SeedStep::Seed
        }
    }

    /// Whether `before` became this ledger when a chunk got its dirt.
    pub open spec fn marked(self, before: Self, coord: ChunkCoord) -> bool {
        &&& self.seeded_chunks@ == before.seeded_chunks@.push(coord)
        &&& self.dirty_chunks@ == if before.dirty_chunks@.contains(coord) {
            before.dirty_chunks@
        } else {
            before.dirty_chunks@.push(coord)
        }
        &&& self.hydrated_level == before.hydrated_level
    }

    /// Decides what to do about the dirt of a chunk, and notes a chunk that gets its dirt.
    pub fn seed_step(&mut self, coord: ChunkCoord, in_world: bool, saved: bool) -> (step: SeedStep)
        ensures
            step == old(self).step_for(coord, in_world, saved),
            if step is Leave {
                *final(self) == *old(self)
            } else {
                final(self).marked(*old(self), coord)
            },
    {
        if !self.needs_seed(coord, in_world) {
            return SeedStep::Leave;
        }
        self.mark_seeded(coord);
        if saved {
            SeedStep::UseSaved
        } else {
            SeedStep::Seed
        }
    }
}

/// A chunk that got its dirt is left alone from then on.
pub proof fn dirt_is_seeded_once(
    before: DirtLedger,
    after: DirtLedger,
    coord: ChunkCoord,
    in_world: bool,
    saved: bool,
)
    requires
        after.marked(before, coord),
    ensures
        after.step_for(coord, in_world, saved) is Leave,
{
    let n = before.seeded_chunks@.len();
    assert(after.seeded_chunks@[n as int] == coord);
}

/// Whether the values are the dirt of some hotspots of the chunk.
pub open spec fn rolled_dirt(
    map: Hypermap<bool>,
    coord: ChunkCoord,
    wave: Seq<u32>,
    values: Seq<u32>,
) -> bool {
    exists|centers: Seq<Tile>| #[trigger]
        hotspots_of(map, coord, centers) && shows_dirt(
            values,
            map,
            wave,
            centers,
            coord,
            centers.len(),
        )
}

/// Whether the values were laid on the ground floor of the chunk and nothing else changed.
pub open spec fn laid(
    before: Hypermap<u32>,
    after: Hypermap<u32>,
    coord: ChunkCoord,
    values: Seq<u32>,
) -> bool {
    &&& after.default_value() == before.default_value()
    &&& after.loaded_coords() == if before.has(coord) {
        before.loaded_coords()
    } else {
        before.loaded_coords().push(coord)
    }
    &&& forall|c: ChunkCoord| #[trigger] after.has(c) <==> before.has(c) || c == coord
    &&& forall|c: ChunkCoord, l: LocalCoord, f: int|
        l.in_chunk() && floor_in_range(f) ==> #[trigger] after.tile_in(c, l, f) == if c == coord
            && f == 0 {
            values[l.y * 128 + l.x]
        } else {
            before.tile_in(c, l, f)
        }
}

/// Lays dirt on the ground floor of a chunk.
fn lay_dirt(field: &mut Hypermap<u32>, coord: ChunkCoord, values: &Vec<u32>)
    requires
        old(field).wf(),
        values@.len() == 16_384,
    ensures
        final(field).wf(),
        laid(*old(field), *final(field), coord, values@),
{
    let ghost before = *field;
    let chunk = field.get_or_create_chunk(coord);
    let mut i: usize = 0;
    while i < CHUNK_TILES
        invariant
            i <= CHUNK_TILES,
            values@.len() == 16_384,
            chunk.wf(),
            forall|l: LocalCoord, f: int|
                l.in_chunk() && floor_in_range(f) ==> #[trigger] chunk.at(l, f) == if f == 0 && l.y
                    * 128 + l.x < i {
                    values@[l.y * 128 + l.x]
                } else {
                    before.tile_in(coord, l, f)
                },
        decreases CHUNK_TILES - i,
    {
        let local = LocalCoord::new((i % 128) as i32, (i / 128) as i32);
        chunk.set_local(local, values[i]);
        i += 1;
    }
}

/// Tile-resolution dirt of the world's ground floor, and which chunks of it are seeded.
#[derive(Debug)]
pub struct DirtMap {
    pub field: Hypermap<u32>,
    pub ledger: DirtLedger,
}

impl DirtMap {
    pub open spec fn wf(self) -> bool {
        self.field.wf()
    }

    /// A clean world.
    pub fn new() -> (dirt: Self)
        ensures
            dirt.wf(),
            dirt.field.default_value() == 0,
            forall|c: ChunkCoord| !#[trigger] dirt.field.has(c),
            dirt.ledger.seeded_chunks@ == Seq::<ChunkCoord>::empty(),
            dirt.ledger.dirty_chunks@ == Seq::<ChunkCoord>::empty(),
            dirt.ledger.hydrated_level is None,
    {
        DirtMap { field: Hypermap::new(0), ledger: DirtLedger::new() }
    }

    pub fn get_tile(&self, world_x: i32, world_y: i32) -> (dirt: u32)
        requires
            self.wf(),
        ensures
            dirt == self.field.tile(world_x as int, world_y as int, 0),
    {
        self.field.get(world_x, world_y)
    }

    /// Sees to it that a chunk of the world has its dirt: what the level's saved dirt holds of
    /// it, or else fresh hotspots. A chunk is seen to once.
    pub fn ensure_chunk_seeded(
        &mut self,
        world: &Hypermap<CellType>,
        passability: &Hypermap<bool>,
        coord: ChunkCoord,
        wave: &Vec<u32>,
    ) -> (step: SeedStep)
        requires
            old(self).wf(),
            passability.wf(),
            in_world(coord),
            wave@.len() == 21,
        ensures
            final(self).wf(),
            step == old(self).ledger.step_for(coord, world.has(coord), old(self).field.has(coord)),
            step is Leave ==> *final(self) == *old(self),
            !(step is Leave) ==> final(self).ledger.marked(old(self).ledger, coord),
            step is UseSaved ==> final(self).field == old(self).field,
            step is Seed ==> if passable_in(*passability, coord, 16_384).len() < 2 {
                final(self).field == old(self).field
            } else {
                exists|values: Seq<u32>| #[trigger]
                    rolled_dirt(*passability, coord, wave@, values) && laid(
                        old(self).field,
                        final(self).field,
                        coord,
                        values,
                    )
            },
    {
        let saved: bool = self.field.has_chunk(coord);
        let step = self.ledger.seed_step(coord, world.has_chunk(coord), saved);
        if step == SeedStep::Seed {
            if let Some(values) = seed_chunk(passability, coord, wave) {
                assert(rolled_dirt(*passability, coord, wave@, values@));
                lay_dirt(&mut self.field, coord, &values);
            }
        }
        step
    }

    /// Clears the dirt of a chunk so that it is seeded again.
    pub fn reset_chunk_for_regeneration(&mut self, coord: ChunkCoord)
        requires
            old(self).wf(),
        ensures
            final(self).wf(),
            final(self).ledger.step_for(coord, true, final(self).field.has(coord)) is Seed,
            final(self).ledger.seeded_chunks@ == without(old(self).ledger.seeded_chunks@, coord),
            final(self).ledger.dirty_chunks == old(self).ledger.dirty_chunks,
            final(self).ledger.hydrated_level == old(self).ledger.hydrated_level,
            final(self).field.default_value() == old(self).field.default_value(),
            forall|c: ChunkCoord| #[trigger]
                final(self).field.has(c) <==> old(self).field.has(c) && c != coord,
            forall|c: ChunkCoord|
                c != coord ==> #[trigger] final(self).field.chunk(c) == old(self).field.chunk(c),
    {
        self.ledger.reset_chunk_for_regeneration(coord);
        self.field.remove_chunk(coord);
    }
}

} // verus!
