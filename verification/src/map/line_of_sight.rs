//! Straight sight between tiles, and string-pulling of tile paths.
//!
//! [`simplify_path_line_of_sight`] runs a greedy string-pulling pass over a tile path:
//! interior tiles whose neighbours see each other (the Bresenham line between them passes
//! only through walkable tiles, and never squeezes diagonally between two wall corners)
//! are discarded. The result is a sparse waypoint list where intermediate nodes exist only
//! where the path must bend around an obstacle. A final pass keeps the straight
//! approach/exit tiles on either side of every doorway so a wide follower threads the gap
//! head-on instead of clipping the frame.

use vstd::prelude::*;

use crate::map::hypermap::Hypermap;
use crate::map::search::{abs_int, adjacent, walkable, world_tile_walkable, Tile};

verus! {

/// Whether the line from `a` to `b`, `i` columns and `j` rows on its way, next crosses a
/// column: the point half a column ahead is not past the ideal line.
pub open spec fn crosses_column(a: Tile, b: Tile, i: int, j: int) -> bool {
    let dx = abs_int(b.0 - a.0);
    let dy = abs_int(b.1 - a.1);
    2 * (j * dx - i * dy) >= dy - 2 * dx
}

/// Whether the line from `a` to `b`, `i` columns and `j` rows on its way, next crosses a row.
pub open spec fn crosses_row(a: Tile, b: Tile, i: int, j: int) -> bool {
    let dx = abs_int(b.0 - a.0);
    let dy = abs_int(b.1 - a.1);
    2 * (j * dx - i * dy) <= 2 * dy - dx
}

/// The tile `i` columns and `j` rows from `a` towards `b`.
pub open spec fn tile_towards(a: Tile, b: Tile, i: int, j: int) -> Tile {
    (
        (a.0 + i * if a.0 < b.0 {
            1int
        } else {
            -1
        }) as i32,
        (a.1 + j * if a.1 < b.1 {
            1int
        } else {
            -1
        }) as i32,
    )
}

/// Whether the rest of the line from `a` to `b`, `i` columns and `j` rows on its way, runs
/// over walkable tiles. A diagonal step also needs both shoulder tiles.
pub open spec fn sees_from(map: Hypermap<bool>, a: Tile, b: Tile, i: int, j: int) -> bool
    decreases abs_int(b.0 - a.0) - i + abs_int(b.1 - a.1) - j,
    when 0 <= i <= abs_int(b.0 - a.0) && 0 <= j <= abs_int(b.1 - a.1)
    via sees_from_decreases
{
    let column = crosses_column(a, b, i, j);
    let row = crosses_row(a, b, i, j);
    walkable(map, tile_towards(a, b, i, j)) && (tile_towards(a, b, i, j) == b || (((column && row)
        ==> (walkable(map, tile_towards(a, b, i + 1, j)) && walkable(
        map,
        tile_towards(a, b, i, j + 1),
    ))) && sees_from(
        map,
        a,
        b,
        if column {
            i + 1
        } else {
            i
        },
        if row {
            j + 1
        } else {
            j
        },
    )))
}

/// Whether `b` is seen from `a`.
pub open spec fn sees(map: Hypermap<bool>, a: Tile, b: Tile) -> bool {
    sees_from(map, a, b, 0, 0)
}

/// The line moves on with every step, never past `b`.
pub(crate) proof fn lemma_line_advances(a: Tile, b: Tile, i: int, j: int)
    requires
        0 <= i <= abs_int(b.0 - a.0),
        0 <= j <= abs_int(b.1 - a.1),
        i < abs_int(b.0 - a.0) || j < abs_int(b.1 - a.1),
    ensures
        crosses_column(a, b, i, j) || crosses_row(a, b, i, j),
        crosses_column(a, b, i, j) ==> i < abs_int(b.0 - a.0),
        crosses_row(a, b, i, j) ==> j < abs_int(b.1 - a.1),
{
    let dx = abs_int(b.0 - a.0);
    let dy = abs_int(b.1 - a.1);
    if i == dx {
        assert(2 * (j * dx - dx * dy) <= -2 * dx) by (nonlinear_arith)
            requires
                0 <= dx,
                j < dy,
        ;
    }
    if j == dy {
        assert(2 * (dy * dx - i * dy) >= 2 * dy) by (nonlinear_arith)
            requires
                0 <= dy,
                i < dx,
        ;
    }
}

pub(crate) proof fn lemma_arrived(a: Tile, b: Tile, i: int, j: int)
    requires
        0 <= i <= abs_int(b.0 - a.0),
        0 <= j <= abs_int(b.1 - a.1),
    ensures
        tile_towards(a, b, i, j) == b <==> i == abs_int(b.0 - a.0) && j == abs_int(b.1 - a.1),
{
    if a.0 < b.0 {
        assert(i * 1int == i);
    } else {
        assert(i * -1int == -i);
    }
    if a.1 < b.1 {
        assert(j * 1int == j);
    } else {
        assert(j * -1int == -j);
    }
}

pub(crate) proof fn lemma_signed(n: int, s: int)
    requires
        s == 1 || s == -1,
    ensures
        n * s == if s == 1 {
            n
        } else {
            -n
        },
{
    assert(n * s == if s == 1 {
        n
    } else {
        -n
    }) by (nonlinear_arith)
        requires
            s == 1 || s == -1,
    ;
}

#[via_fn]
proof fn sees_from_decreases(map: Hypermap<bool>, a: Tile, b: Tile, i: int, j: int) {
    if 0 <= i <= abs_int(b.0 - a.0) && 0 <= j <= abs_int(b.1 - a.1) {
        lemma_arrived(a, b, i, j);
        if tile_towards(a, b, i, j) != b {
            lemma_line_advances(a, b, i, j);
        }
    }
}

/// Walks the integer Bresenham line from `a` to `b` and returns true iff every
/// tile on that line (including both endpoints) is walkable per `map`.
///
/// Diagonal steps additionally require both orthogonal "shoulder" tiles to be
/// walkable: a line that slips between two diagonally-touching wall cells is
/// **not** line-of-sight, because a follower with real width clips the corner.
pub fn line_of_sight(map: &Hypermap<bool>, a: (i32, i32), b: (i32, i32)) -> (seen: bool)
    requires
        map.wf(),
    ensures
        seen == sees(*map, a, b),
{
    let mut x: i64 = a.0 as i64;
    let mut y: i64 = a.1 as i64;
    let x1: i64 = b.0 as i64;
    let y1: i64 = b.1 as i64;
    let dx: i64 = if x1 < x { x - x1 } else { x1 - x };
    let ady: i64 = if y1 < y { y - y1 } else { y1 - y };
    let dy: i64 = -ady;
    let sx: i64 = if x < x1 { 1 } else { -1 };
    let sy: i64 = if y < y1 { 1 } else { -1 };
    let mut err: i64 = dx + dy;
    let ghost mut i: int = 0;
    let ghost mut j: int = 0;
    assert(0 * sx == 0 && 0 * sy == 0);
    assert(0 * ady == 0 && 0 * dx == 0);
    loop
        invariant
            map.wf(),
            x1 == b.0,
            y1 == b.1,
            dx == abs_int(b.0 - a.0),
            ady == abs_int(b.1 - a.1),
            dy == -ady,
            dx <= 0xffff_ffff,
            ady <= 0xffff_ffff,
            sx == (if a.0 < b.0 {
                1int
            } else {
                -1
            }),
            sy == (if a.1 < b.1 {
                1int
            } else {
                -1
            }),
            0 <= i <= dx,
            0 <= j <= ady,
            x == a.0 + i * sx,
            y == a.1 + j * sy,
            err == j * dx - i * ady + dx - ady,
            -0x2_0000_0000 <= err <= 0x2_0000_0000,
            sees(*map, a, b) == sees_from(*map, a, b, i, j),
        decreases dx - i + ady - j,
    {
        proof {
            lemma_arrived(a, b, i, j);
            lemma_signed(i, sx as int);
            lemma_signed(j, sy as int);
            assert(tile_towards(a, b, i, j) == (x as i32, y as i32));
        }
        if !world_tile_walkable(map, x as i32, y as i32) {
            return false;
        }
        if x == x1 && y == y1 {
            return true;
        }
        proof {
            lemma_line_advances(a, b, i, j);
        }
        let e2: i64 = 2 * err;
        let step_x: bool = e2 >= dy;
        let step_y: bool = e2 <= dx;
        assert(step_x == crosses_column(a, b, i, j));
        assert(step_y == crosses_row(a, b, i, j));
        if step_x && step_y {
            proof {
                assert((i + 1) * sx == i * sx + sx) by (nonlinear_arith);
                assert((j + 1) * sy == j * sy + sy) by (nonlinear_arith);
                lemma_arrived(a, b, i + 1, j);
                assert(tile_towards(a, b, i + 1, j) == ((x + sx) as i32, y as i32));
                assert(tile_towards(a, b, i, j + 1) == (x as i32, (y + sy) as i32));
            }
            if !world_tile_walkable(map, (x + sx) as i32, y as i32) || !world_tile_walkable(
                map,
                x as i32,
                (y + sy) as i32,
            ) {
                return false;
            }
        }
        if step_x {
            proof {
                assert((i + 1) * sx == i * sx + sx) by (nonlinear_arith);
                assert((i + 1) * ady == i * ady + ady) by (nonlinear_arith);
                i = i + 1;
            }
            err = err + dy;
            x = x + sx;
        }
        if step_y {
            proof {
                assert((j + 1) * sy == j * sy + sy) by (nonlinear_arith);
                assert((j + 1) * dx == j * dx + dx) by (nonlinear_arith);
                j = j + 1;
            }
            err = err + dx;
            y = y + sy;
        }
    }
}

/// Tiles that share an edge see each other.
pub proof fn neighbours_see_each_other(map: Hypermap<bool>, a: Tile, b: Tile)
    requires
        adjacent(a, b),
        walkable(map, a),
        walkable(map, b),
    ensures
        sees(map, a, b),
{
    let dx = abs_int(b.0 - a.0);
    let dy = abs_int(b.1 - a.1);
    lemma_arrived(a, b, 0, 0);
    assert(0 * dx == 0 && 0 * dy == 0);
    assert(tile_towards(a, b, 0, 0) == a);
    lemma_arrived(a, b, dx, dy);
    if dx == 1 {
        assert(crosses_column(a, b, 0, 0) && !crosses_row(a, b, 0, 0));
        assert(sees_from(map, a, b, 1, 0));
    } else {
        assert(!crosses_column(a, b, 0, 0) && crosses_row(a, b, 0, 0));
        assert(sees_from(map, a, b, 0, 1));
    }
}

/// Walkability of the tile at any pair of integers; nothing lies outside the coordinate range.
pub open spec fn open_at(map: Hypermap<bool>, x: int, y: int) -> bool {
    i32::MIN <= x <= i32::MAX && i32::MIN <= y <= i32::MAX && walkable(map, (x as i32, y as i32))
}

fn is_open_at(map: &Hypermap<bool>, x: i64, y: i64) -> (open: bool)
    requires
        map.wf(),
    ensures
        open == open_at(*map, x as int, y as int),
{
    if x < i32::MIN as i64 || x > i32::MAX as i64 || y < i32::MIN as i64 || y > i32::MAX as i64 {
        false
    } else {
        world_tile_walkable(map, x as i32, y as i32)
    }
}

/// One-tile gap in a wall that runs along `y`, crossed along `x`; both sides widen out.
pub open spec fn narrow_gap_x(map: Hypermap<bool>, x: int, y: int) -> bool {
    &&& open_at(map, x + 1, y + 1) || open_at(map, x + 1, y - 1)
    &&& open_at(map, x - 1, y + 1) || open_at(map, x - 1, y - 1)
}

/// One-tile gap in a wall that runs along `x`, crossed along `y`; both sides widen out.
pub open spec fn narrow_gap_y(map: Hypermap<bool>, x: int, y: int) -> bool {
    &&& open_at(map, x + 1, y + 1) || open_at(map, x - 1, y + 1)
    &&& open_at(map, x + 1, y - 1) || open_at(map, x - 1, y - 1)
}

/// Two-tile gap with its partner at `y + p` in a wall that runs along `y`.
pub open spec fn wide_gap_x(map: Hypermap<bool>, x: int, y: int, p: int) -> bool {
    &&& open_at(map, x, y + p)
    &&& !open_at(map, x, y - p)
    &&& !open_at(map, x, y + 2 * p)
    &&& open_at(map, x + 1, y)
    &&& open_at(map, x - 1, y)
    &&& open_at(map, x + 1, y - p) || open_at(map, x + 1, y + 2 * p)
    &&& open_at(map, x - 1, y - p) || open_at(map, x - 1, y + 2 * p)
}

/// Two-tile gap with its partner at `x + p` in a wall that runs along `x`.
pub open spec fn wide_gap_y(map: Hypermap<bool>, x: int, y: int, p: int) -> bool {
    &&& open_at(map, x + p, y)
    &&& !open_at(map, x - p, y)
    &&& !open_at(map, x + 2 * p, y)
    &&& open_at(map, x, y + 1)
    &&& open_at(map, x, y - 1)
    &&& open_at(map, x - p, y + 1) || open_at(map, x + 2 * p, y + 1)
    &&& open_at(map, x - p, y - 1) || open_at(map, x + 2 * p, y - 1)
}

/// Whether the tile is part of a doorway.
pub open spec fn is_doorway(map: Hypermap<bool>, x: int, y: int) -> bool {
    open_at(map, x, y) && if !open_at(map, x, y + 1) && !open_at(map, x, y - 1) && open_at(
        map,
        x + 1,
        y,
    ) && open_at(map, x - 1, y) {
        narrow_gap_x(map, x, y)
    } else if !open_at(map, x + 1, y) && !open_at(map, x - 1, y) && open_at(map, x, y + 1)
        && open_at(map, x, y - 1) {
        narrow_gap_y(map, x, y)
    } else {
        wide_gap_x(map, x, y, 1) || wide_gap_x(map, x, y, -1) || wide_gap_y(map, x, y, 1)
            || wide_gap_y(map, x, y, -1)
    }
}

fn has_wide_gap_x(map: &Hypermap<bool>, x: i64, y: i64, p: i64) -> (gap: bool)
    requires
        map.wf(),
        i32::MIN <= x <= i32::MAX,
        i32::MIN <= y <= i32::MAX,
        p == 1 || p == -1,
    ensures
        gap == wide_gap_x(*map, x as int, y as int, p as int),
{
    is_open_at(map, x, y + p) && !is_open_at(map, x, y - p) && !is_open_at(map, x, y + p * 2)
        && is_open_at(map, x + 1, y) && is_open_at(map, x - 1, y) && (is_open_at(map, x + 1, y - p)
        || is_open_at(map, x + 1, y + p * 2)) && (is_open_at(map, x - 1, y - p) || is_open_at(
        map,
        x - 1,
        y + p * 2,
    ))
}

fn has_wide_gap_y(map: &Hypermap<bool>, x: i64, y: i64, p: i64) -> (gap: bool)
    requires
        map.wf(),
        i32::MIN <= x <= i32::MAX,
        i32::MIN <= y <= i32::MAX,
        p == 1 || p == -1,
    ensures
        gap == wide_gap_y(*map, x as int, y as int, p as int),
{
    is_open_at(map, x + p, y) && !is_open_at(map, x - p, y) && !is_open_at(map, x + p * 2, y)
        && is_open_at(map, x, y + 1) && is_open_at(map, x, y - 1) && (is_open_at(map, x - p, y + 1)
        || is_open_at(map, x + p * 2, y + 1)) && (is_open_at(map, x - p, y - 1) || is_open_at(
        map,
        x + p * 2,
        y - 1,
    ))
}

/// True when `(x, y)` is part of a doorway: a 1- or 2-tile-wide walkable gap in an
/// otherwise solid wall, flanked by walls on both ends of the band and open space on
/// the crossing axis.
///
/// For a 1-wide gap both immediate wall-axis neighbours are blocked; the crossing-axis
/// neighbours are open and widen out (not pinched the same way), so genuine doorways
/// stay distinct from straight single-tile corridors.
///
/// For a 2-wide gap the tile itself has one walkable wall-axis neighbour (its partner)
/// and one blocked one; both crossing-axis neighbours are open; and the space beyond
/// both ends of the 2-tile band is blocked, preventing a wide corridor from matching.
pub fn is_doorway_tile(map: &Hypermap<bool>, x: i32, y: i32) -> (door: bool)
    requires
        map.wf(),
    ensures
        door == is_doorway(*map, x as int, y as int),
{
    if !world_tile_walkable(map, x, y) {
        return false;
    }
    let x: i64 = x as i64;
    let y: i64 = y as i64;
    let north: bool = is_open_at(map, x, y - 1);
    let south: bool = is_open_at(map, x, y + 1);
    let east: bool = is_open_at(map, x + 1, y);
    let west: bool = is_open_at(map, x - 1, y);
    if !south && !north && east && west {
        return (is_open_at(map, x + 1, y + 1) || is_open_at(map, x + 1, y - 1)) && (is_open_at(
            map,
            x - 1,
            y + 1,
        ) || is_open_at(map, x - 1, y - 1));
    }
    if !east && !west && south && north {
        return (is_open_at(map, x + 1, y + 1) || is_open_at(map, x - 1, y + 1)) && (is_open_at(
            map,
            x + 1,
            y - 1,
        ) || is_open_at(map, x - 1, y - 1));
    }
    has_wide_gap_x(map, x, y, 1) || has_wide_gap_x(map, x, y, -1) || has_wide_gap_y(map, x, y, 1)
        || has_wide_gap_y(map, x, y, -1)
}

/// Indices at which a path has to bend: going on from `i`, the last bend was at `anchor`,
/// and the tile after the next bend is not seen from the bend before it.
pub open spec fn bends(map: Hypermap<bool>, path: Seq<Tile>, anchor: int, i: int) -> Seq<int>
    decreases path.len() - i,
{
    if i + 1 >= path.len() {
        seq![]
    } else if sees(map, path[anchor], path[i + 1]) {
        bends(map, path, anchor, i + 1)
    } else {
        seq![i] + bends(map, path, i, i + 1)
    }
}

/// The tiles among the first `n` whose index is kept.
pub open spec fn kept_tiles(path: Seq<Tile>, keep: spec_fn(int) -> bool, n: nat) -> Seq<Tile>
    decreases n,
{
    if n == 0 {
        seq![]
    } else if keep(n - 1) {
        kept_tiles(path, keep, (n - 1) as nat).push(path[n - 1])
    } else {
        kept_tiles(path, keep, (n - 1) as nat)
    }
}

/// Whether index `k` is within `buffer` of one of `marks`.
pub open spec fn near_mark(marks: Seq<int>, buffer: int, k: int) -> bool {
    exists|b: int| #[trigger] marks.contains(b) && b - buffer <= k <= b + buffer
}

/// The waypoints of one string-pulling pass: the ends, the bends, and `buffer` tiles on
/// both sides of each bend.
pub open spec fn pulled(map: Hypermap<bool>, path: Seq<Tile>, buffer: int) -> Seq<Tile> {
    if path.len() <= 2 {
        path
    } else {
        kept_tiles(
            path,
            |k: int|
                k == 0 || k == path.len() - 1 || near_mark(bends(map, path, 0, 1), buffer, k),
            path.len(),
        )
    }
}

fn collect_kept(path: &[(i32, i32)], keep: &Vec<bool>, Ghost(model): Ghost<spec_fn(int) -> bool>) -> (out: Vec<
    (i32, i32),
>)
    requires
        keep@.len() == path@.len(),
        forall|k: int| 0 <= k < keep@.len() ==> keep@[k] == #[trigger] model(k),
    ensures
        out@ == kept_tiles(path@, model, path@.len()),
{
    let mut out: Vec<Tile> = Vec::new();
    let mut k: usize = 0;
    while k < keep.len()
        invariant
            k <= keep@.len(),
            keep@.len() == path@.len(),
            forall|j: int| 0 <= j < keep@.len() ==> keep@[j] == #[trigger] model(j),
            out@ == kept_tiles(path@, model, k as nat),
        decreases keep@.len() - k,
    {
        assert(keep@[k as int] == model(k as int));
        if keep[k] {
            out.push(path[k]);
        }
        k += 1;
    }
    out
}

fn collect_bends(map: &Hypermap<bool>, path: &[(i32, i32)]) -> (out: Vec<usize>)
    requires
        map.wf(),
        path@.len() > 2,
    ensures
        out@.len() == bends(*map, path@, 0, 1).len(),
        forall|j: int| 0 <= j < out@.len() ==> #[trigger] out@[j] == bends(*map, path@, 0, 1)[j],
        forall|j: int| 0 <= j < out@.len() ==> #[trigger] out@[j] < path@.len() - 1,
{
    let mut out: Vec<usize> = Vec::new();
    let mut anchor: usize = 0;
    let mut i: usize = 1;
    let ghost all = bends(*map, path@, 0, 1);
    while i < path.len() - 1
        invariant
            map.wf(),
            1 <= i < path@.len(),
            anchor < i,
            all == bends(*map, path@, 0, 1),
            out@.len() <= all.len(),
            all.skip(out@.len() as int) == bends(*map, path@, anchor as int, i as int),
            forall|j: int| 0 <= j < out@.len() ==> #[trigger] out@[j] == all[j],
            forall|j: int| 0 <= j < out@.len() ==> #[trigger] out@[j] < path@.len() - 1,
        decreases path@.len() - i,
    {
        if !line_of_sight(map, path[anchor], path[i + 1]) {
            proof {
                let rest = bends(*map, path@, anchor as int, i as int);
                assert(rest == seq![i as int] + bends(*map, path@, i as int, i + 1));
                assert(rest[0] == i);
                assert(all.skip(out@.len() as int)[0] == all[out@.len() as int]);
                assert(all.skip(out@.len() as int + 1) =~= rest.skip(1));
                assert(rest.skip(1) =~= bends(*map, path@, i as int, i + 1));
            }
            out.push(i);
            anchor = i;
        }
        i += 1;
    }
    assert(all.skip(out@.len() as int).len() == 0);
    out
}

fn copy_path(path: &[(i32, i32)]) -> (out: Vec<(i32, i32)>)
    ensures
        out@ == path@,
{
    let mut out: Vec<Tile> = Vec::with_capacity(path.len());
    let mut k: usize = 0;
    while k < path.len()
        invariant
            k <= path@.len(),
            out@ == path@.take(k as int),
        decreases path@.len() - k,
    {
        out.push(path[k]);
        k += 1;
        assert(out@ =~= path@.take(k as int));
    }
    assert(out@ =~= path@);
    out
}

fn simplify_path_line_of_sight_pass(
    map: &Hypermap<bool>,
    path: &[(i32, i32)],
    corner_buffer: usize,
) -> (out: Vec<(i32, i32)>)
    requires
        map.wf(),
    ensures
        out@ == pulled(*map, path@, corner_buffer as int),
{
    if path.len() <= 2 {
        return copy_path(path);
    }
    let bend_indices: Vec<usize> = collect_bends(map, path);
    let last: usize = path.len() - 1;
    let mut keep: Vec<bool> = Vec::with_capacity(path.len());
    let ghost marks = bends(*map, path@, 0, 1);
    let ghost model = |k: int|
        k == 0 || k == path@.len() - 1 || near_mark(marks, corner_buffer as int, k);
    let mut k: usize = 0;
    while k < path.len()
        invariant
            k <= path@.len(),
            last == path@.len() - 1,
            keep@.len() == k,
            marks == bends(*map, path@, 0, 1),
            bend_indices@.len() == marks.len(),
            forall|j: int| 0 <= j < bend_indices@.len() ==> #[trigger] bend_indices@[j] == marks[j],
            model == (|k: int|
                k == 0 || k == path@.len() - 1 || near_mark(marks, corner_buffer as int, k)),
            forall|j: int| 0 <= j < k ==> keep@[j] == #[trigger] model(j),
        decreases path@.len() - k,
    {
        let mut kept: bool = k == 0 || k == last;
        let mut j: usize = 0;
        while j < bend_indices.len()
            invariant
                j <= bend_indices@.len(),
                bend_indices@.len() == marks.len(),
                forall|i: int|
                    0 <= i < bend_indices@.len() ==> #[trigger] bend_indices@[i] == marks[i],
                kept == (k == 0 || k == last || exists|i: int|
                    0 <= i < j && #[trigger] marks[i] - corner_buffer <= k <= marks[i]
                        + corner_buffer),
            decreases bend_indices@.len() - j,
        {
            let b: usize = bend_indices[j];
            let gap: usize = if b < k { k - b } else { b - k };
            assert(b == marks[j as int]);
            if gap <= corner_buffer {
                kept = true;
            }
            j += 1;
        }
        proof {
            assert(kept == model(k as int)) by {
                if near_mark(marks, corner_buffer as int, k as int) {
                    let b = choose|b: int| #[trigger]
                        marks.contains(b) && b - corner_buffer <= k <= b + corner_buffer;
                    let i = choose|i: int| 0 <= i < marks.len() && marks[i] == b;
                    assert(marks[i] - corner_buffer <= k <= marks[i] + corner_buffer);
                }
                if exists|i: int|
                    0 <= i < marks.len() && #[trigger] marks[i] - corner_buffer <= k <= marks[i]
                        + corner_buffer {
                    let i = choose|i: int|
                        0 <= i < marks.len() && #[trigger] marks[i] - corner_buffer <= k <= marks[i]
                            + corner_buffer;
                    assert(marks.contains(marks[i]));
                }
            }
        }
        keep.push(kept);
        k += 1;
    }
    let out = collect_kept(path, &keep, Ghost(model));
    proof {
        assert(model =~= (|k: int|
            k == 0 || k == path@.len() - 1 || near_mark(
                bends(*map, path@, 0, 1),
                corner_buffer as int,
                k,
            )));
    }
    out
}

/// Whether index `i` of the path is the last one that holds a tile of `simplified`.
pub open spec fn last_holder(path: Seq<Tile>, simplified: Seq<Tile>, i: int) -> bool {
    simplified.contains(path[i]) && forall|j: int| i < j < path.len() ==> path[j] != path[i]
}

/// Whether index `i` of the path is next to or on a doorway that the path threads.
pub open spec fn at_doorway(map: Hypermap<bool>, path: Seq<Tile>, i: int) -> bool {
    exists|d: int|
        0 < d < path.len() - 1 && i - 1 <= d <= i + 1 && #[trigger] is_doorway(
            map,
            path[d].0 as int,
            path[d].1 as int,
        )
}

/// The waypoints with the tiles on both sides of every doorway added back.
pub open spec fn with_doorways(map: Hypermap<bool>, path: Seq<Tile>, simplified: Seq<Tile>) -> Seq<
    Tile,
> {
    if path.len() <= 2 {
        simplified
    } else {
        kept_tiles(
            path,
            |i: int| last_holder(path, simplified, i) || at_doorway(map, path, i),
            path.len(),
        )
    }
}

fn holds(tiles: &[(i32, i32)], from: usize, t: (i32, i32)) -> (found: bool)
    requires
        from <= tiles@.len(),
    ensures
        found == exists|j: int| from <= j < tiles@.len() && tiles@[j] == t,
{
    let mut j: usize = from;
    while j < tiles.len()
        invariant
            from <= j <= tiles@.len(),
            forall|i: int| from <= i < j ==> tiles@[i] != t,
        decreases tiles@.len() - j,
    {
        let u: Tile = tiles[j];
        if u.0 == t.0 && u.1 == t.1 {
            assert(tiles@[j as int] == t);
            return true;
        }
        j += 1;
    }
    false
}

/// Adds back the immediate predecessor and successor of every doorway tile on
/// the raw `path` to the `simplified` waypoint list, preserving path order.
fn reinsert_doorway_approaches(
    map: &Hypermap<bool>,
    path: &[(i32, i32)],
    simplified: Vec<(i32, i32)>,
) -> (out: Vec<(i32, i32)>)
    requires
        map.wf(),
    ensures
        out@ == with_doorways(*map, path@, simplified@),
{
    if path.len() <= 2 {
        return simplified;
    }
    let last: usize = path.len() - 1;
    let mut doors: Vec<bool> = Vec::with_capacity(path.len());
    let mut d: usize = 0;
    while d < path.len()
        invariant
            map.wf(),
            d <= path@.len(),
            last == path@.len() - 1,
            doors@.len() == d,
            forall|j: int|
                0 <= j < d ==> #[trigger] doors@[j] == (0 < j < last && is_doorway(
                    *map,
                    path@[j].0 as int,
                    path@[j].1 as int,
                )),
        decreases path@.len() - d,
    {
        let (x, y) = path[d];
        doors.push(d > 0 && d < last && is_doorway_tile(map, x, y));
        d += 1;
    }
    let ghost model = |i: int| last_holder(path@, simplified@, i) || at_doorway(*map, path@, i);
    let mut keep: Vec<bool> = Vec::with_capacity(path.len());
    let mut i: usize = 0;
    while i < path.len()
        invariant
            i <= path@.len(),
            last == path@.len() - 1,
            doors@.len() == path@.len(),
            keep@.len() == i,
            forall|j: int|
                0 <= j < path@.len() ==> #[trigger] doors@[j] == (0 < j < last && is_doorway(
                    *map,
                    path@[j].0 as int,
                    path@[j].1 as int,
                )),
            model == (|i: int|
                last_holder(path@, simplified@, i) || at_doorway(*map, path@, i)),
            forall|j: int| 0 <= j < i ==> keep@[j] == #[trigger] model(j),
        decreases path@.len() - i,
    {
        let t: Tile = path[i];
        let held: bool = holds(simplified.as_slice(), 0, t) && !holds(path, i + 1, t);
        let beside: bool = doors[i] || (i > 0 && doors[i - 1]) || (i < last && doors[i + 1]);
        proof {
            assert(held == last_holder(path@, simplified@, i as int));
            assert(beside == at_doorway(*map, path@, i as int)) by {
                if at_doorway(*map, path@, i as int) {
                    let d = choose|d: int|
                        0 < d < path@.len() - 1 && i - 1 <= d <= i + 1 && #[trigger] is_doorway(
                            *map,
                            path@[d].0 as int,
                            path@[d].1 as int,
                        );
                    assert(doors@[d]);
                }
                if doors@[i as int] {
                    assert(is_doorway(*map, path@[i as int].0 as int, path@[i as int].1 as int));
                }
                if i > 0 && doors@[i - 1] {
                    assert(is_doorway(*map, path@[i - 1].0 as int, path@[i - 1].1 as int));
                }
                if i < last && doors@[i + 1] {
                    assert(is_doorway(*map, path@[i + 1].0 as int, path@[i + 1].1 as int));
                }
            }
        }
        keep.push(held || beside);
        i += 1;
    }
    let out = collect_kept(path, &keep, Ghost(model));
    assert(model =~= (|i: int|
        last_holder(path@, simplified@, i) || at_doorway(*map, path@, i)));
    out
}

/// The waypoints of a path: one pass with the corner buffer, a second pass without it
/// where the first kept more than the ends, and the doorway approaches.
pub open spec fn simplified(map: Hypermap<bool>, path: Seq<Tile>, buffer: int) -> Seq<Tile> {
    let first = pulled(map, path, buffer);
    let pulled_twice = if buffer == 0 || first.len() <= 2 {
        first
    } else {
        pulled(map, first, 0)
    };
    with_doorways(map, path, pulled_twice)
}

/// Greedy string-pulling on a 4-neighbor tile path.
///
/// Keeps the start, the goal, and only those interior waypoints where the
/// path must bend around an obstacle (i.e. the previous anchor cannot reach
/// the next tile by line-of-sight). Tiles in open space are dropped so the
/// follower moves diagonally rather than stair-stepping along the grid.
///
/// `corner_buffer` keeps that many extra tiles on **each side** of every
/// detected bend (clamped to the path bounds). When `corner_buffer > 0`, a second
/// string-pull pass with zero buffer collapses redundant buffered tiles while keeping
/// bends that still require a detour.
///
/// A final pass re-inserts the tile on each side of every **doorway** the path
/// threads (a 1- or 2-tile-wide gap in a wall, see [`is_doorway_tile`]).
pub fn simplify_path_line_of_sight(
    map: &Hypermap<bool>,
    path: &[(i32, i32)],
    corner_buffer: usize,
) -> (out: Vec<(i32, i32)>)
    requires
        map.wf(),
    ensures
        out@ == simplified(*map, path@, corner_buffer as int),
{
    let buffered = simplify_path_line_of_sight_pass(map, path, corner_buffer);
    let pulled_twice = if corner_buffer == 0 || buffered.len() <= 2 {
        buffered
    } else {
        simplify_path_line_of_sight_pass(map, buffered.as_slice(), 0)
    };
    reinsert_doorway_approaches(map, path, pulled_twice)
}

} // verus!
