//! Writes and mirrors of one chunk's cells.
use vstd::prelude::*;

use crate::map::hypermap::{
    floor_in_range, ChunkCoord, Hypermap, HypermapChunk, LocalCoord, HYPERMAP_CHUNK_SIZE,
};
use crate::map::passability::{SubtilePassability, SUBTILE_COUNT};
use crate::map::world_map::{cell_passability, passable, CellType, TileStyle, WorldMapFloor};

verus! {

/// Whether the walk over a chunk, floors fastest, then columns, then rows, has passed the
/// place when it stands at `(x, y, floor)`.
pub open spec fn passed(l: LocalCoord, f: int, x: int, y: int, floor: int) -> bool {
    l.y < y || (l.y == y && (l.x < x || (l.x == x && f < floor)))
}

/// How the map looks after the chunk's tiles were set by `value` and nothing else changed.
pub open spec fn chunk_set<T: Copy>(
    before: Hypermap<T>,
    after: Hypermap<T>,
    coord: ChunkCoord,
    value: spec_fn(LocalCoord, int) -> T,
) -> bool {
    &&& after.default_value() == before.default_value()
    &&& forall|c: ChunkCoord| #[trigger] after.has(c) <==> before.has(c) || c == coord
    &&& forall|c: ChunkCoord, l: LocalCoord, f: int|
        l.in_chunk() && floor_in_range(f) ==> #[trigger] after.tile_in(c, l, f) == if c == coord {
            value(l, f)
        } else {
            before.tile_in(c, l, f)
        }
}

/// Reads every cell of a world chunk and writes its passability into the same chunk of
/// `passability`. Nothing happens where the world does not hold the chunk.
pub fn mirror_chunk_into_passability(
    map: &Hypermap<CellType>,
    passability: &mut Hypermap<bool>,
    coord: ChunkCoord,
)
    requires
        map.wf(),
        old(passability).wf(),
    ensures
        final(passability).wf(),
        !map.has(coord) ==> *final(passability) == *old(passability),
        map.has(coord) ==> chunk_set(
            *old(passability),
            *final(passability),
            coord,
            |l: LocalCoord, f: int| passable(map.chunk(coord).at(l, f)),
        ),
{
    let world = match map.get_chunk(coord) {
        Some(world) => world,
        None => {
            return;
        },
    };
    let ghost before = *passability;
    let chunk = passability.get_or_create_chunk(coord);
    let mut y: i32 = 0;
    while y < HYPERMAP_CHUNK_SIZE
        invariant
            0 <= y <= 128,
            world.wf(),
            chunk.wf(),
            forall|l: LocalCoord, f: int|
                l.in_chunk() && floor_in_range(f) && passed(l, f, 0, y as int, 0)
                    ==> #[trigger] chunk.at(l, f) == passable(world.at(l, f)),
        decreases 128 - y,
    {
        let mut x: i32 = 0;
        while x < HYPERMAP_CHUNK_SIZE
            invariant
                0 <= x <= 128,
                0 <= y < 128,
                world.wf(),
                chunk.wf(),
                forall|l: LocalCoord, f: int|
                    l.in_chunk() && floor_in_range(f) && passed(l, f, x as int, y as int, 0)
                        ==> #[trigger] chunk.at(l, f) == passable(world.at(l, f)),
            decreases 128 - x,
        {
            let local = LocalCoord::new(x, y);
            let mut floor: i32 = 0;
            while floor < 10
                invariant
                    0 <= floor <= 10,
                    0 <= x < 128,
                    0 <= y < 128,
                    local == (LocalCoord { x, y }),
                    world.wf(),
                    chunk.wf(),
                    forall|l: LocalCoord, f: int|
                        l.in_chunk() && floor_in_range(f) && passed(
                            l,
                            f,
                            x as int,
                            y as int,
                            floor as int,
                        ) ==> #[trigger] chunk.at(l, f) == passable(world.at(l, f)),
                decreases 10 - floor,
            {
                let cell: CellType = *world.get_local_floor(local, floor);
                chunk.set_local_floor(local, floor, cell_passability(cell));
                floor += 1;
            }
            x += 1;
        }
        y += 1;
    }
}

/// Whether the tile carries, on every subtile, the flags that `flags` may give the cell.
pub open spec fn flagged<F: Fn(CellType, usize, usize) -> u64>(
    tile: SubtilePassability,
    flags: F,
    cell: CellType,
) -> bool {
    forall|sy: usize, sx: usize|
        sy < SUBTILE_COUNT && sx < SUBTILE_COUNT ==> call_ensures(
            flags,
            (cell, sx, sy),
            #[trigger] tile.at(sy as int, sx as int),
        )
}

/// Whether `flags` may be asked of every cell and subtile.
pub open spec fn answers<F: Fn(CellType, usize, usize) -> u64>(flags: F) -> bool {
    forall|cell: CellType, sx: usize, sy: usize|
        sx < SUBTILE_COUNT && sy < SUBTILE_COUNT ==> #[trigger] call_requires(
            flags,
            (cell, sx, sy),
        )
}

/// The subtile flags of one cell.
pub fn cell_subtiles<F: Fn(CellType, usize, usize) -> u64>(cell: CellType, flags: &F) -> (tile:
    SubtilePassability)
    requires
        answers(*flags),
    ensures
        flagged(tile, *flags, cell),
{
    let mut tile = SubtilePassability::empty();
    let mut sy: usize = 0;
    while sy < SUBTILE_COUNT
        invariant
            sy <= SUBTILE_COUNT,
            answers(*flags),
            forall|y: usize, x: usize|
                y < sy && x < SUBTILE_COUNT ==> call_ensures(
                    *flags,
                    (cell, x, y),
                    #[trigger] tile.at(y as int, x as int),
                ),
            forall|y: int, x: int|
                sy <= y < 5 && 0 <= x < 5 ==> #[trigger] tile.at(y, x) == 0,
        decreases SUBTILE_COUNT - sy,
    {
        let mut sx: usize = 0;
        while sx < SUBTILE_COUNT
            invariant
                sx <= SUBTILE_COUNT,
                sy < SUBTILE_COUNT,
                answers(*flags),
                forall|y: usize, x: usize|
                    (y < sy && x < SUBTILE_COUNT) || (y == sy && x < sx) ==> call_ensures(
                        *flags,
                        (cell, x, y),
                        #[trigger] tile.at(y as int, x as int),
                    ),
                forall|y: int, x: int|
                    (sy < y < 5 && 0 <= x < 5) || (y == sy && sx <= x < 5)
                        ==> #[trigger] tile.at(y, x) == 0,
            decreases SUBTILE_COUNT - sx,
        {
            let found: u64 = flags(cell, sx, sy);
            proof {
                assert(0u64 | found == found) by (bit_vector);
            }
            if found != 0 {
                tile.or_flags(sy, sx, found);
            }
            sx += 1;
        }
        sy += 1;
    }
    tile
}

/// Builds the per-subtile flag grid for the ground floor of a chunk from its cell types.
/// Nothing happens where the world does not hold the chunk.
pub fn mirror_chunk_into_subtile_cache<F: Fn(CellType, usize, usize) -> u64>(
    map: &Hypermap<CellType>,
    subtile_cache: &mut Hypermap<SubtilePassability>,
    coord: ChunkCoord,
    flags: &F,
)
    requires
        map.wf(),
        old(subtile_cache).wf(),
        answers(*flags),
    ensures
        final(subtile_cache).wf(),
        !map.has(coord) ==> *final(subtile_cache) == *old(subtile_cache),
        map.has(coord) ==> {
            &&& final(subtile_cache).replaced_chunk(
                *old(subtile_cache),
                coord,
                final(subtile_cache).chunk(coord),
            )
            &&& forall|l: LocalCoord|
                l.in_chunk() ==> flagged(
                    #[trigger] final(subtile_cache).chunk(coord).at(l, 0),
                    *flags,
                    map.chunk(coord).at(l, 0),
                )
            &&& forall|l: LocalCoord, f: int|
                l.in_chunk() && 0 < f < 10 ==> #[trigger] final(subtile_cache).tile_in(coord, l, f)
                    == old(subtile_cache).tile_in(coord, l, f)
        },
{
    let world = match map.get_chunk(coord) {
        Some(world) => world,
        None => {
            return;
        },
    };
    let ghost before = *subtile_cache;
    let chunk = subtile_cache.get_or_create_chunk(coord);
    let mut y: i32 = 0;
    while y < HYPERMAP_CHUNK_SIZE
        invariant
            0 <= y <= 128,
            world.wf(),
            chunk.wf(),
            answers(*flags),
            forall|l: LocalCoord|
                l.in_chunk() && passed(l, 0, 0, y as int, 0) ==> flagged(
                    #[trigger] chunk.at(l, 0),
                    *flags,
                    world.at(l, 0),
                ),
            forall|l: LocalCoord, f: int|
                l.in_chunk() && 0 < f < 10 ==> #[trigger] chunk.at(l, f) == before.tile_in(
                    coord,
                    l,
                    f,
                ),
        decreases 128 - y,
    {
        let mut x: i32 = 0;
        while x < HYPERMAP_CHUNK_SIZE
            invariant
                0 <= x <= 128,
                0 <= y < 128,
                world.wf(),
                chunk.wf(),
                answers(*flags),
                forall|l: LocalCoord|
                    l.in_chunk() && passed(l, 0, x as int, y as int, 0) ==> flagged(
                        #[trigger] chunk.at(l, 0),
                        *flags,
                        world.at(l, 0),
                    ),
                forall|l: LocalCoord, f: int|
                    l.in_chunk() && 0 < f < 10 ==> #[trigger] chunk.at(l, f) == before.tile_in(
                        coord,
                        l,
                        f,
                    ),
            decreases 128 - x,
        {
            let local = LocalCoord::new(x, y);
            let cell: CellType = *world.get_local_floor(local, 0);
            let tile = cell_subtiles(cell, flags);
            chunk.set_local(local, tile);
            x += 1;
        }
        y += 1;
    }
}

/// Sets every tile of a chunk, creating the chunk if need be.
fn fill_chunk<T: Copy>(map: &mut Hypermap<T>, coord: ChunkCoord, value: T)
    requires
        old(map).wf(),
    ensures
        final(map).wf(),
        chunk_set(*old(map), *final(map), coord, |l: LocalCoord, f: int| value),
{
    let chunk = map.get_or_create_chunk(coord);
    *chunk = HypermapChunk::new(&value);
}

/// Gives a chunk of a style layer its plain look on every floor.
pub fn reset_style_chunk(style_map: &mut Hypermap<TileStyle>, coord: ChunkCoord)
    requires
        old(style_map).wf(),
    ensures
        final(style_map).wf(),
        chunk_set(
            *old(style_map),
            *final(style_map),
            coord,
            |l: LocalCoord, f: int| TileStyle::Regular,
        ),
{
    fill_chunk(style_map, coord, TileStyle::DEFAULT);
}

/// Procedural authoring only fills ground floor; upper levels stay open void until edited.
pub fn clear_upper_floors_to_void(chunk: &mut HypermapChunk<CellType>)
    requires
        old(chunk).wf(),
    ensures
        final(chunk).wf(),
        forall|l: LocalCoord, f: int|
            l.in_chunk() && floor_in_range(f) ==> #[trigger] final(chunk).at(l, f) == if f == 0 {
                old(chunk).at(l, 0)
            } else {
                CellType::Void
            },
{
    let ghost before = *chunk;
    let mut y: i32 = 0;
    while y < HYPERMAP_CHUNK_SIZE
        invariant
            0 <= y <= 128,
            chunk.wf(),
            forall|l: LocalCoord, f: int|
                l.in_chunk() && floor_in_range(f) && passed(l, f, 0, y as int, 0) && f > 0
                    ==> #[trigger] chunk.at(l, f) == CellType::Void,
            forall|l: LocalCoord| l.in_chunk() ==> #[trigger] chunk.at(l, 0) == before.at(l, 0),
        decreases 128 - y,
    {
        let mut x: i32 = 0;
        while x < HYPERMAP_CHUNK_SIZE
            invariant
                0 <= x <= 128,
                0 <= y < 128,
                chunk.wf(),
                forall|l: LocalCoord, f: int|
                    l.in_chunk() && floor_in_range(f) && passed(l, f, x as int, y as int, 0) && f
                        > 0 ==> #[trigger] chunk.at(l, f) == CellType::Void,
                forall|l: LocalCoord| l.in_chunk() ==> #[trigger] chunk.at(l, 0) == before.at(l, 0),
            decreases 128 - x,
        {
            let local = LocalCoord::new(x, y);
            let mut floor: i32 = 1;
            while floor < 10
                invariant
                    1 <= floor <= 10,
                    0 <= x < 128,
                    0 <= y < 128,
                    local == (LocalCoord { x, y }),
                    chunk.wf(),
                    forall|l: LocalCoord, f: int|
                        l.in_chunk() && floor_in_range(f) && passed(
                            l,
                            f,
                            x as int,
                            y as int,
                            floor as int,
                        ) && f > 0 ==> #[trigger] chunk.at(l, f) == CellType::Void,
                    forall|l: LocalCoord|
                        l.in_chunk() ==> #[trigger] chunk.at(l, 0) == before.at(l, 0),
                decreases 10 - floor,
            {
                chunk.set_local_floor(local, floor, CellType::Void);
                floor += 1;
            }
            x += 1;
        }
        y += 1;
    }
}

/// Offset that centres `len` cells on a chunk, rounded towards zero: negative where the
/// chunk is too small.
pub open spec fn centered(len: int) -> int {
    if len <= 128 {
        (128 - len) / 2
    } else {
        -((len - 128) / 2)
    }
}

/// What a chunk's floor shows after a text floor was laid over its middle.
pub open spec fn overlaid(
    before: HypermapChunk<CellType>,
    map: WorldMapFloor,
    floor: int,
    l: LocalCoord,
    f: int,
) -> CellType {
    let x = l.x - centered(map.columns());
    let y = l.y - centered(map.lines());
    if f == floor && 0 <= x < map.columns() && 0 <= y < map.lines() {
        map.cell(x, y)
    } else {
        before.at(l, f)
    }
}

fn center_offset(len: usize) -> (offset: i32)
    requires
        len <= 0x7fff_ffff,
    ensures
        offset == centered(len as int),
{
    if len <= 128 {
        (128 - len as i32) / 2
    } else {
        -((len as i32 - 128) / 2)
    }
}

/// Lays a text floor over the middle of one floor of the chunk; what falls outside the chunk
/// is cut off.
pub fn apply_world_map_to_floor(
    chunk: &mut HypermapChunk<CellType>,
    floor: i32,
    map: &WorldMapFloor,
)
    requires
        old(chunk).wf(),
        floor_in_range(floor as int),
        map.wf(),
    ensures
        final(chunk).wf(),
        forall|l: LocalCoord, f: int|
            l.in_chunk() && floor_in_range(f) ==> #[trigger] final(chunk).at(l, f) == overlaid(
                *old(chunk),
                *map,
                floor as int,
                l,
                f,
            ),
{
    let ghost before = *chunk;
    proof {
        assert(map.columns() <= 0x7fff_ffff && map.lines() <= 0x7fff_ffff) by (nonlinear_arith)
            requires
                map.columns() * map.lines() <= 0x7fff_ffff,
                0 < map.columns(),
                0 < map.lines(),
        ;
    }
    let start_x: i32 = center_offset(map.width());
    let start_y: i32 = center_offset(map.height());
    let mut y: i32 = 0;
    while y < HYPERMAP_CHUNK_SIZE
        invariant
            0 <= y <= 128,
            chunk.wf(),
            map.wf(),
            floor_in_range(floor as int),
            start_x == centered(map.columns()),
            start_y == centered(map.lines()),
            forall|l: LocalCoord, f: int|
                l.in_chunk() && floor_in_range(f) ==> #[trigger] chunk.at(l, f) == if passed(
                    l,
                    0,
                    0,
                    y as int,
                    0,
                ) {
                    overlaid(before, *map, floor as int, l, f)
                } else {
                    before.at(l, f)
                },
        decreases 128 - y,
    {
        let mut x: i32 = 0;
        while x < HYPERMAP_CHUNK_SIZE
            invariant
                0 <= x <= 128,
                0 <= y < 128,
                chunk.wf(),
                map.wf(),
                floor_in_range(floor as int),
                start_x == centered(map.columns()),
                start_y == centered(map.lines()),
                forall|l: LocalCoord, f: int|
                    l.in_chunk() && floor_in_range(f) ==> #[trigger] chunk.at(l, f) == if passed(
                        l,
                        0,
                        x as int,
                        y as int,
                        0,
                    ) {
                        overlaid(before, *map, floor as int, l, f)
                    } else {
                        before.at(l, f)
                    },
            decreases 128 - x,
        {
            let map_x: i64 = x as i64 - start_x as i64;
            let map_y: i64 = y as i64 - start_y as i64;
            if map_x >= 0 && map_y >= 0 {
                match map.get(map_x as usize, map_y as usize) {
                    Some(cell) => chunk.set_local_floor(LocalCoord::new(x, y), floor, cell),
                    None => {},
                }
            }
            x += 1;
        }
        y += 1;
    }
}

} // verus!
