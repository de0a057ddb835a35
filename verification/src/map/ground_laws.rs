//! What distances, boxes, dirt and file names come to on all inputs.
use vstd::prelude::*;

use crate::flood::{lemma_within_more, steps_away};
use crate::map::chunk_metadata::{described, ChunkGeneratorMetadata};
use crate::map::dirt::{
    clamped, dirt_step, dirt_sum, hotspot_adds, laid, passable_in, shows_dirt, tile_at_place, DirtLedger,
    SeedStep,
};
use crate::map::floor_path::{detour_box_size, detour_joins, floor_joins, in_detour_box};
use crate::map::hypermap::{
    chunk_of, floor_in_range, local_of, ChunkCoord, Hypermap, HypermapChunk, LocalCoord,
};
use crate::map::hypermap_world::chunk_cells::{centered, flagged, overlaid};
use crate::map::hypermap_world::runtime::in_step;
use crate::map::level_files::lower;
use crate::map::passability::SubtilePassability;
use crate::map::search::{abs_int, adjacent, line_pull, tile_distance, tile_step, Tile};
use crate::map::world_map::{passable, CellType};
use crate::map::world_map_floor::WorldMapFloor;
use crate::reach::reaches_within;
use crate::text::{decimal, decimal_nat, decimal_reads_back, parse_int};

verus! {

/// The distance between tiles is the number of columns and rows between them: the same both
/// ways, nothing just between a tile and itself, and never longer straight than by way of
/// another tile.
pub proof fn distances_are_columns_and_rows(a: Tile, b: Tile, c: Tile)
    ensures
        tile_distance(a, b) == tile_distance(b, a),
        tile_distance(a, b) == 0 <==> a == b,
        tile_distance(a, c) <= tile_distance(a, b) + tile_distance(b, c),
        a.1 == b.1 && a.0 <= b.0 ==> tile_distance(a, b) == b.0 - a.0,
        a.0 == b.0 && a.1 <= b.1 ==> tile_distance(a, b) == b.1 - a.1,
        a.0 <= b.0 && a.1 <= b.1 ==> tile_distance(a, b) == (b.0 - a.0) + (b.1 - a.1),
{
}

/// Neighbours share an edge: they are one column or one row apart, not both.
pub proof fn neighbours_share_an_edge(a: Tile, b: Tile)
    ensures
        adjacent(a, b) <==> {
            ||| b.0 == a.0 && (b.1 == a.1 + 1 || b.1 == a.1 - 1)
            ||| b.1 == a.1 && (b.0 == a.0 + 1 || b.0 == a.0 - 1)
        },
{
}

/// A follower steps onto walkable neighbours, on the ground and on a text floor alike; from
/// where it starts does not matter.
pub proof fn steps_lead_onto_walkable_neighbours(
    map: Hypermap<bool>,
    floor: WorldMapFloor,
    a: Tile,
    b: Tile,
)
    ensures
        (tile_step(map))(a, b) <==> size(a.0 - b.0) + size(a.1 - b.1) == 1 && map.tile(
            b.0 as int,
            b.1 as int,
            0,
        ),
        (dirt_step(map))(a, b) <==> size(a.0 - b.0) + size(a.1 - b.1) == 1 && map.tile(
            b.0 as int,
            b.1 as int,
            0,
        ),
        floor_joins(floor, a, b) <==> size(a.0 - b.0) + size(a.1 - b.1) == 1 && 0 <= b.0
            < floor.columns() && 0 <= b.1 < floor.lines() && floor.cell(b.0 as int, b.1 as int)
            == CellType::Road,
{
}

/// The size of a number without its sign.
pub open spec fn size(n: int) -> int {
    if n < 0 {
        -n
    } else {
        n
    }
}

/// The box of a detour is the box of its ends, grown by the padding on every side.
pub proof fn detours_stay_in_their_box(start: Tile, goal: Tile, pad: i32, t: Tile)
    ensures
        in_detour_box(start, goal, pad, t) <==> {
            let (left, right) = if start.0 < goal.0 {
                (start.0, goal.0)
            } else {
                (goal.0, start.0)
            };
            let (top, bottom) = if start.1 < goal.1 {
                (start.1, goal.1)
            } else {
                (goal.1, start.1)
            };
            left - pad <= t.0 <= right + pad && top - pad <= t.1 <= bottom + pad
        },
        in_detour_box(start, goal, pad, t) == in_detour_box(goal, start, pad, t),
        pad >= 0 ==> in_detour_box(start, goal, pad, start) && in_detour_box(start, goal, pad, goal),
{
}

/// The number of subtiles in the box of a detour is its width times its height.
pub proof fn detour_boxes_have_width_and_height(
    start: Tile,
    goal: Tile,
    pad: i32,
    width: int,
    height: int,
)
    requires
        start.0 <= goal.0,
        start.1 <= goal.1,
        width == goal.0 - start.0 + 1 + 2 * pad,
        height == goal.1 - start.1 + 1 + 2 * pad,
    ensures
        detour_box_size(start, goal, pad) == width * height,
        detour_box_size(goal, start, pad) == width * height,
{
    assert(abs_int(start.0 - goal.0) + 2 * pad + 1 == width);
    assert(abs_int(start.1 - goal.1) + 2 * pad + 1 == height);
    assert(abs_int(goal.0 - start.0) + 2 * pad + 1 == width);
    assert(abs_int(goal.1 - start.1) + 2 * pad + 1 == height);
}

/// A detour steps onto free neighbours inside its box; where it starts it may always return.
pub proof fn detours_step_onto_free_neighbours(
    start: Tile,
    goal: Tile,
    pad: i32,
    free: spec_fn(Tile) -> bool,
    a: Tile,
    b: Tile,
)
    ensures
        detour_joins(start, goal, pad, free, a, b) ==> size(a.0 - b.0) + size(a.1 - b.1) == 1 && (
        free(b) || b == start),
        size(a.0 - b.0) + size(a.1 - b.1) == 1 && free(b) && in_detour_box(start, goal, pad, b)
            ==> detour_joins(start, goal, pad, free, a, b),
{
}

/// A text floor is laid in the middle: what is left of the chunk on the one side and on the
/// other differs by at most one cell, in columns and in rows alike.
pub proof fn text_floors_lie_in_the_middle(len: int)
    requires
        0 <= len,
    ensures
        -1 <= (128 - centered(len) - len) - centered(len) <= 1,
        len <= 128 ==> 0 <= centered(len) && centered(len) + len <= 128,
{
}

/// Laying a text floor over a chunk moves every cell of it by the same number of columns and of
/// rows, and changes nothing outside of it and on other floors.
pub proof fn text_floors_keep_their_shape(
    before: HypermapChunk<CellType>,
    map: WorldMapFloor,
    floor: int,
    l: LocalCoord,
    x: int,
    y: int,
)
    requires
        l.x == x + centered(map.columns()),
        l.y == y + centered(map.lines()),
    ensures
        0 <= x < map.columns() && 0 <= y < map.lines() ==> overlaid(before, map, floor, l, floor)
            == map.cell(x, y),
        !(0 <= x < map.columns() && 0 <= y < map.lines()) ==> overlaid(before, map, floor, l, floor)
            == before.at(l, floor),
        forall|f: int| f != floor ==> #[trigger] overlaid(before, map, floor, l, f) == before.at(
            l,
            f,
        ),
{
}

/// Dirt fades with every step: a hotspot adds the wave's value at the number of steps that lead
/// to the tile, and nothing where more than twenty are needed.
pub proof fn dirt_fades_with_the_steps(
    map: Hypermap<bool>,
    wave: Seq<u32>,
    center: Tile,
    t: Tile,
    d: int,
)
    requires
        0 <= d,
        steps_away(dirt_step(map), center, t, d),
    ensures
        hotspot_adds(map, wave, center, t) == (if d <= 20 {
            wave[d] as int
        } else {
            0
        }),
{
    let step = dirt_step(map);
    if d <= 20 {
        lemma_within_more(step, center, t, d, 20);
        assert(steps_away(step, center, t, d));
        let e = choose|e: int| 0 <= e <= 20 && steps_away(step, center, t, e);
        assert(0 <= e <= 20 && steps_away(step, center, t, e));
        if e < d {
            lemma_within_more(step, center, t, e, d - 1);
        }
        if d < e {
            lemma_within_more(step, center, t, d, e - 1);
        }
    } else {
        if reaches_within(step, center, t, 20) {
            lemma_within_more(step, center, t, 20, d - 1);
        }
    }
}

/// More hotspots never make a tile cleaner, and no tile is dirtier than fully dirty or cleaner
/// than clean.
pub proof fn hotspots_only_add_dirt(
    map: Hypermap<bool>,
    wave: Seq<u32>,
    centers: Seq<Tile>,
    t: Tile,
    n: nat,
)
    ensures
        0 <= dirt_sum(map, wave, centers, t, n) <= dirt_sum(map, wave, centers, t, n + 1),
        dirt_sum(map, wave, centers, t, n + 1) - dirt_sum(map, wave, centers, t, n) == hotspot_adds(
            map,
            wave,
            centers[n as int],
            t,
        ),
        0 <= clamped(dirt_sum(map, wave, centers, t, n)) <= 1_000_000,
        dirt_sum(map, wave, centers, t, n) <= 1_000_000 ==> clamped(
            dirt_sum(map, wave, centers, t, n),
        ) == dirt_sum(map, wave, centers, t, n),
    decreases n,
{
    if n > 0 {
        hotspots_only_add_dirt(map, wave, centers, t, (n - 1) as nat);
    }
}

/// The dirt values of a chunk lie row by row: the value of the tile in column `l.x` and row
/// `l.y` is that of its world tile.
pub proof fn dirt_lies_on_its_tile(
    values: Seq<u32>,
    map: Hypermap<bool>,
    wave: Seq<u32>,
    centers: Seq<Tile>,
    coord: ChunkCoord,
    n: nat,
    l: LocalCoord,
    t: Tile,
)
    requires
        shows_dirt(values, map, wave, centers, coord, n),
        l.in_chunk(),
        t.0 == 128 * coord.x + l.x,
        t.1 == 128 * coord.y + l.y,
    ensures
        values[128 * l.y + l.x] == clamped(dirt_sum(map, wave, centers, t, n)),
{
    let i = 128 * l.y + l.x;
    assert(i % 128 == l.x && i / 128 == l.y);
    assert(tile_at_place(coord, i) == t);
    assert(values[i] == values[i]);
}

/// Hotspots lie on walkable tiles of their chunk: the list holds just the walkable tiles.
pub proof fn hotspots_lie_on_walkable_tiles(map: Hypermap<bool>, coord: ChunkCoord, n: nat, t: Tile)
    requires
        n <= 16_384,
        -0x100_0000 <= coord.x < 0x100_0000,
        -0x100_0000 <= coord.y < 0x100_0000,
    ensures
        passable_in(map, coord, n).contains(t) ==> map.tile(t.0 as int, t.1 as int, 0) && t.0 as int
            / 128 == coord.x && t.1 as int / 128 == coord.y,
    decreases n,
{
    let all = passable_in(map, coord, n);
    if n > 0 {
        hotspots_lie_on_walkable_tiles(map, coord, (n - 1) as nat, t);
        let before = passable_in(map, coord, (n - 1) as nat);
        if all.contains(t) {
            let k = choose|k: int| 0 <= k < all.len() && all[k] == t;
            if k < before.len() {
                assert(before[k] == t);
            }
        }
    }
}

impl DirtLedger {
    /// A chunk gets its dirt once: the world's chunks that have none yet are seeded, or take
    /// what was saved; all others are left alone.
    pub proof fn chunks_get_their_dirt_once(self, coord: ChunkCoord, in_world: bool, saved: bool)
        ensures
            self.step_for(coord, in_world, saved) == SeedStep::Leave <==> !in_world
                || self.seeded_chunks@.contains(coord),
            self.step_for(coord, in_world, saved) == SeedStep::Seed <==> in_world
                && !self.seeded_chunks@.contains(coord) && !saved,
            self.step_for(coord, in_world, saved) == SeedStep::UseSaved <==> in_world
                && !self.seeded_chunks@.contains(coord) && saved,
    {
    }
}

/// Saved are the descriptions of the chunks that have one, in their order.
pub proof fn described_chunks_keep_their_order(
    store: ChunkGeneratorMetadata,
    coords: Seq<ChunkCoord>,
    n: nat,
)
    requires
        n <= coords.len(),
    ensures
        described(store, coords, n) == coords.take(n as int).filter(
            |c: ChunkCoord| store.held(c) is Some,
        ),
    decreases n,
{
    reveal(Seq::filter);
    if n > 0 {
        described_chunks_keep_their_order(store, coords, (n - 1) as nat);
        assert(coords.take(n as int).drop_last() =~= coords.take(n - 1));
    }
    assert(described(store, coords, n) =~= coords.take(n as int).filter(
        |c: ChunkCoord| store.held(c) is Some,
    ));
}

/// A world tile lies in its chunk: the chunk's first tile plus the place inside the chunk, which
/// is less than a chunk away, gives the tile back.
pub proof fn chunks_hold_their_tiles(wx: i32, wy: i32)
    ensures
        ({
            let (c, l) = (chunk_of(wx as int, wy as int), local_of(wx as int, wy as int));
            &&& wx == 128 * c.x + l.x && 0 <= l.x < 128
            &&& wy == 128 * c.y + l.y && 0 <= l.y < 128
        }),
{
}

/// Letter case does not matter for level names: lower and upper case letters have one lower
/// case, which stays, and other characters stay as they are.
pub proof fn lower_case_is_stable(c: char)
    ensures
        lower(lower(c)) == lower(c),
        'a' <= c && c <= 'z' ==> lower(c) == c,
        !('A' <= c && c <= 'Z') ==> lower(c) == c,
        'A' <= c && c <= 'Z' ==> lower(c) as int - 'a' as int == c as int - 'A' as int,
{
}

/// The pull towards the straight line is twice the area between a tile and the line from the
/// start to the goal, but less than the cost of a step: nothing on the line itself, and more
/// the farther off.
pub proof fn the_pull_measures_the_way_off_the_line(start: Tile, goal: Tile, node: Tile)
    ensures
        ({
            let area = size(
                (node.0 - start.0) * (goal.1 - start.1) - (node.1 - start.1) * (goal.0 - start.0),
            );
            line_pull(start, goal, node) == (if area < 1023 {
                area
            } else {
                1023
            })
        }),
{
    reveal(line_pull);
    let (nx, ny) = (node.0 as int, node.1 as int);
    let (sx, sy) = (start.0 as int, start.1 as int);
    let (gx, gy) = (goal.0 as int, goal.1 as int);
    lemma_other_corner(nx, ny, sx, sy, gx, gy);
}

proof fn lemma_other_corner(nx: int, ny: int, sx: int, sy: int, gx: int, gy: int)
    by (nonlinear_arith)
    ensures
        (nx - gx) * (sy - gy) - (sx - gx) * (ny - gy) == -((nx - sx) * (gy - sy) - (ny - sy) * (gx
            - sx)),
{
}

/// The passability layer says of every world tile whether the cell there can be walked.
pub proof fn passability_mirrors_the_world(
    map: Hypermap<CellType>,
    passability: Hypermap<bool>,
    wx: int,
    wy: int,
    floor: int,
)
    requires
        in_step(map, passability),
        0 <= floor < 10,
    ensures
        passability.tile(wx, wy, floor) <==> {
            let cell = map.tile(wx, wy, floor);
            cell is Road || cell is Charger || cell is PartsDepot
        },
{
    let (c, l) = (chunk_of(wx, wy), local_of(wx, wy));
    assert(l.in_chunk() && floor_in_range(floor));
    assert(passability.tile_in(c, l, floor) == passable(map.tile_in(c, l, floor)));
}

/// A subtile's flags are asked for by its own column and row.
pub proof fn flags_fall_on_their_subtile<F: Fn(CellType, usize, usize) -> u64>(
    tile: SubtilePassability,
    flags: F,
    cell: CellType,
    column: usize,
    row: usize,
)
    requires
        flagged(tile, flags, cell),
        column < 5,
        row < 5,
    ensures
        call_ensures(flags, (cell, column, row), tile.at(row as int, column as int)),
{
    assert(tile.at(row as int, column as int) == tile.at(row as int, column as int));
}

/// Seeded dirt lies on its world tile: what the field shows on the ground is the dirt of the
/// hotspots there.
pub proof fn seeded_dirt_shows_on_its_tile(
    before: Hypermap<u32>,
    after: Hypermap<u32>,
    values: Seq<u32>,
    map: Hypermap<bool>,
    wave: Seq<u32>,
    centers: Seq<Tile>,
    coord: ChunkCoord,
    n: nat,
    t: Tile,
)
    requires
        laid(before, after, coord, values),
        shows_dirt(values, map, wave, centers, coord, n),
        t.0 as int / 128 == coord.x,
        t.1 as int / 128 == coord.y,
    ensures
        after.tile(t.0 as int, t.1 as int, 0) == clamped(dirt_sum(map, wave, centers, t, n)),
{
    let l = local_of(t.0 as int, t.1 as int);
    assert(chunk_of(t.0 as int, t.1 as int) == coord);
    assert(l.in_chunk() && floor_in_range(0));
    assert(after.tile_in(coord, l, 0) == values[l.y * 128 + l.x]);
    dirt_lies_on_its_tile(values, map, wave, centers, coord, n, l, t);
}

proof fn lemma_first_digit(n: nat)
    ensures
        decimal_nat(n).len() > 0,
        '0' <= decimal_nat(n)[0] && decimal_nat(n)[0] <= '9',
    decreases n,
{
    if n >= 10 {
        lemma_first_digit(n / 10);
    }
}

/// Written numbers are read back, with their sign.
pub proof fn written_numbers_are_read_back(n: i32)
    ensures
        parse_int(decimal(n as int)) == Some(n as int),
{
    let s = decimal(n as int);
    if n < 0 {
        let m = (-n) as nat;
        lemma_first_digit(m);
        decimal_reads_back(m);
        assert(s[0] == '-');
        assert(s.skip(1) =~= decimal_nat(m));
    } else {
        lemma_first_digit(n as nat);
        decimal_reads_back(n as nat);
    }
}

} // verus!
