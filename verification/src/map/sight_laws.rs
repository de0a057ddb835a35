//! What sight between tiles means on the ground: a seen tile is reached over walkable tiles
//! along the straight segment, and nothing off the segment hides a tile.
use vstd::prelude::*;

use crate::map::hypermap::Hypermap;
use crate::map::line_of_sight::{
    crosses_column, crosses_row, lemma_arrived, lemma_line_advances, lemma_signed, sees, sees_from,
    tile_towards,
};
use crate::map::search::{abs_int, Tile};

verus! {

/// Whether a number lies between two others, in whichever order they come.
pub open spec fn between(a: int, b: int, x: int) -> bool {
    a <= x <= b || b <= x <= a
}

/// Whether the tile lies in the box that the two others span.
pub open spec fn in_span(a: Tile, b: Tile, t: Tile) -> bool {
    between(a.0 as int, b.0 as int, t.0 as int) && between(a.1 as int, b.1 as int, t.1 as int)
}

/// The larger of two numbers.
pub open spec fn larger(m: int, n: int) -> int {
    if m < n {
        n
    } else {
        m
    }
}

/// The size of a number without its sign.
pub open spec fn size(n: int) -> int {
    if n < 0 {
        -n
    } else {
        n
    }
}

/// How far the tile's centre is off the straight line through the centres of `a` and `b`: the
/// distance along either axis times the line's extent on the other axis.
pub open spec fn off_line(a: Tile, b: Tile, t: Tile) -> int {
    size((t.1 - a.1) * (b.0 - a.0) - (t.0 - a.0) * (b.1 - a.1))
}

/// Whether the tile's centre is no more than half a tile from the segment between the centres
/// of `a` and `b`, measured along the axis on which the segment is shorter.
pub open spec fn within_half_a_tile(a: Tile, b: Tile, t: Tile) -> bool {
    in_span(a, b, t) && 2 * off_line(a, b, t) <= larger(size(b.0 - a.0), size(b.1 - a.1))
}

/// Whether the two tiles are the same or touch, by an edge or by a corner.
pub open spec fn touching(t: Tile, u: Tile) -> bool {
    size(t.0 - u.0) <= 1 && size(t.1 - u.1) <= 1
}

/// Whether the list of tiles is a clear line to `b`: walkable tiles close to the segment from
/// `a`, each touching the one before, with walkable tiles on both sides of every step over a
/// corner.
pub open spec fn clear_line(map: Hypermap<bool>, a: Tile, b: Tile, line: Seq<Tile>) -> bool {
    &&& line.len() > 0
    &&& line.last() == b
    &&& forall|k: int|
        0 <= k < line.len() ==> map.tile((#[trigger] line[k]).0 as int, line[k].1 as int, 0)
            && within_half_a_tile(a, b, line[k])
    &&& forall|k: int|
        0 < k < line.len() ==> touching(line[k - 1], #[trigger] line[k]) && map.tile(
            line[k].0 as int,
            line[k - 1].1 as int,
            0,
        ) && map.tile(line[k - 1].0 as int, line[k].1 as int, 0)
}

spec fn toward(a: int, b: int) -> int {
    if a < b {
        1
    } else {
        -1
    }
}

proof fn lemma_turned(i: int, j: int, dx: int, dy: int, sx: int, sy: int)
    requires
        sx == 1 || sx == -1,
        sy == 1 || sy == -1,
    ensures
        size((j * sy) * (dx * sx) - (i * sx) * (dy * sy)) == size(j * dx - i * dy),
{
    lemma_signed(i, sx);
    lemma_signed(dx, sx);
    lemma_signed(j, sy);
    lemma_signed(dy, sy);
    lemma_opposites(j, dx);
    lemma_opposites(i, dy);
}

proof fn lemma_opposites(m: int, n: int)
    by (nonlinear_arith)
    ensures
        (-m) * (-n) == m * n,
        m * (-n) == -(m * n),
        (-m) * n == -(m * n),
{
}

/// What a tile on the way is, and how far it is off the line.
proof fn lemma_on_the_way(a: Tile, b: Tile, i: int, j: int)
    requires
        0 <= i <= abs_int(b.0 - a.0),
        0 <= j <= abs_int(b.1 - a.1),
    ensures
        in_span(a, b, tile_towards(a, b, i, j)),
        tile_towards(a, b, i, j).0 == a.0 + i * toward(a.0 as int, b.0 as int),
        tile_towards(a, b, i, j).1 == a.1 + j * toward(a.1 as int, b.1 as int),
        off_line(a, b, tile_towards(a, b, i, j)) == size(
            j * abs_int(b.0 - a.0) - i * abs_int(b.1 - a.1),
        ),
{
    let (dx, dy) = (abs_int(b.0 - a.0), abs_int(b.1 - a.1));
    let (sx, sy) = (toward(a.0 as int, b.0 as int), toward(a.1 as int, b.1 as int));
    lemma_signed(i, sx);
    lemma_signed(j, sy);
    lemma_signed(dx, sx);
    lemma_signed(dy, sy);
    lemma_turned(i, j, dx, dy, sx, sy);
    let t = tile_towards(a, b, i, j);
    assert(t.0 - a.0 == i * sx && t.1 - a.1 == j * sy);
    assert(b.0 - a.0 == dx * sx && b.1 - a.1 == dy * sy);
}

/// A step of the line leaves it no more than half a tile off.
proof fn lemma_stays_close(a: Tile, b: Tile, i: int, j: int)
    requires
        0 <= i <= abs_int(b.0 - a.0),
        0 <= j <= abs_int(b.1 - a.1),
        2 * size(j * abs_int(b.0 - a.0) - i * abs_int(b.1 - a.1)) <= larger(
            abs_int(b.0 - a.0),
            abs_int(b.1 - a.1),
        ),
        i < abs_int(b.0 - a.0) || j < abs_int(b.1 - a.1),
    ensures
        ({
            let (dx, dy) = (abs_int(b.0 - a.0), abs_int(b.1 - a.1));
            let m: int = if crosses_column(a, b, i, j) {
                i + 1
            } else {
                i
            };
            let n: int = if crosses_row(a, b, i, j) {
                j + 1
            } else {
                j
            };
            &&& m <= dx
            &&& n <= dy
            &&& i + j < m + n
            &&& 2 * size(n * dx - m * dy) <= larger(dx, dy)
            &&& crosses_column(a, b, i, j) && crosses_row(a, b, i, j) ==> 2 * size(
                j * dx - (i + 1) * dy,
            ) <= dx + dy + dx + dy - larger(dx, dy) && 2 * size((j + 1) * dx - i * dy) <= dx + dy
                + dx + dy - larger(dx, dy)
        }),
{
    let (dx, dy) = (abs_int(b.0 - a.0), abs_int(b.1 - a.1));
    lemma_line_advances(a, b, i, j);
    assert((i + 1) * dy == i * dy + dy) by (nonlinear_arith);
    assert((j + 1) * dx == j * dx + dx) by (nonlinear_arith);
}

proof fn lemma_clear_rest(map: Hypermap<bool>, a: Tile, b: Tile, i: int, j: int) -> (line: Seq<Tile>)
    requires
        0 <= i <= abs_int(b.0 - a.0),
        0 <= j <= abs_int(b.1 - a.1),
        2 * size(j * abs_int(b.0 - a.0) - i * abs_int(b.1 - a.1)) <= larger(
            abs_int(b.0 - a.0),
            abs_int(b.1 - a.1),
        ),
        sees_from(map, a, b, i, j),
    ensures
        clear_line(map, a, b, line),
        line[0] == tile_towards(a, b, i, j),
    decreases abs_int(b.0 - a.0) - i + abs_int(b.1 - a.1) - j,
{
    let t = tile_towards(a, b, i, j);
    lemma_arrived(a, b, i, j);
    lemma_on_the_way(a, b, i, j);
    if t == b {
        let line = seq![t];
        assert(clear_line(map, a, b, line));
        line
    } else {
        lemma_stays_close(a, b, i, j);
        let (column, row) = (crosses_column(a, b, i, j), crosses_row(a, b, i, j));
        let m: int = if column {
            i + 1
        } else {
            i
        };
        let n: int = if row {
            j + 1
        } else {
            j
        };
        let rest = lemma_clear_rest(map, a, b, m, n);
        let u = tile_towards(a, b, m, n);
        lemma_on_the_way(a, b, m, n);
        let (sx, sy) = (toward(a.0 as int, b.0 as int), toward(a.1 as int, b.1 as int));
        assert((i + 1) * sx == i * sx + sx) by (nonlinear_arith);
        assert((j + 1) * sy == j * sy + sy) by (nonlinear_arith);
        if column && row {
            lemma_on_the_way(a, b, m, j);
            lemma_on_the_way(a, b, i, n);
        }
        let line = seq![t] + rest;
        assert(line.last() == rest.last());
        assert forall|k: int| 0 <= k < line.len() implies map.tile(
            (#[trigger] line[k]).0 as int,
            line[k].1 as int,
            0,
        ) && within_half_a_tile(a, b, line[k]) by {
            if k > 0 {
                assert(line[k] == rest[k - 1]);
            }
        }
        assert forall|k: int| 0 < k < line.len() implies touching(line[k - 1], #[trigger] line[k])
            && map.tile(line[k].0 as int, line[k - 1].1 as int, 0) && map.tile(
            line[k - 1].0 as int,
            line[k].1 as int,
            0,
        ) by {
            assert(line[k] == rest[k - 1]);
            if k > 1 {
                assert(line[k - 1] == rest[k - 2]);
            } else {
                assert(line[0] == t && line[1] == u);
                assert(map.tile(u.0 as int, u.1 as int, 0)) by {
                    assert(rest[0] == u);
                }
            }
        }
        line
    }
}

/// What is seen is seen along the ground: a seen tile is reached by a list of walkable tiles,
/// each touching the one before, that keeps to within half a tile of the straight segment and
/// never squeezes between two blocked tiles that touch by a corner.
pub proof fn sight_runs_over_walkable_tiles(map: Hypermap<bool>, a: Tile, b: Tile)
    requires
        sees(map, a, b),
    ensures
        exists|line: Seq<Tile>| #[trigger] clear_line(map, a, b, line) && line[0] == a,
{
    let (dx, dy) = (abs_int(b.0 - a.0), abs_int(b.1 - a.1));
    assert(0 * dx == 0 && 0 * dy == 0);
    lemma_on_the_way(a, b, 0, 0);
    let line = lemma_clear_rest(map, a, b, 0, 0);
    assert(clear_line(map, a, b, line) && line[0] == a);
}

proof fn lemma_open_rest(map: Hypermap<bool>, a: Tile, b: Tile, i: int, j: int)
    requires
        0 <= i <= abs_int(b.0 - a.0),
        0 <= j <= abs_int(b.1 - a.1),
        2 * size(j * abs_int(b.0 - a.0) - i * abs_int(b.1 - a.1)) <= larger(
            abs_int(b.0 - a.0),
            abs_int(b.1 - a.1),
        ),
        forall|t: Tile|
            in_span(a, b, t) && 2 * off_line(a, b, t) + larger(size(b.0 - a.0), size(b.1 - a.1)) <= 2
                * (size(b.0 - a.0) + size(b.1 - a.1)) ==> map.tile(
                (#[trigger] t.0) as int,
                (#[trigger] t.1) as int,
                0,
            ),
    ensures
        sees_from(map, a, b, i, j),
    decreases abs_int(b.0 - a.0) - i + abs_int(b.1 - a.1) - j,
{
    let (dx, dy) = (abs_int(b.0 - a.0), abs_int(b.1 - a.1));
    let t = tile_towards(a, b, i, j);
    lemma_arrived(a, b, i, j);
    lemma_on_the_way(a, b, i, j);
    assert(map.tile(t.0 as int, t.1 as int, 0));
    if t != b {
        lemma_stays_close(a, b, i, j);
        let (column, row) = (crosses_column(a, b, i, j), crosses_row(a, b, i, j));
        let m: int = if column {
            i + 1
        } else {
            i
        };
        let n: int = if row {
            j + 1
        } else {
            j
        };
        lemma_open_rest(map, a, b, m, n);
        if column && row {
            lemma_on_the_way(a, b, i + 1, j);
            lemma_on_the_way(a, b, i, j + 1);
            let (r, s) = (tile_towards(a, b, i + 1, j), tile_towards(a, b, i, j + 1));
            assert(map.tile(r.0 as int, r.1 as int, 0));
            assert(map.tile(s.0 as int, s.1 as int, 0));
        }
    }
}

/// Nothing off the segment hides a tile: where all tiles of the band along the segment are
/// walkable, half a tile to either side and the tiles beside its steps over corners, the tile
/// is seen.
pub proof fn open_ground_hides_nothing(map: Hypermap<bool>, a: Tile, b: Tile)
    requires
        forall|t: Tile|
            in_span(a, b, t) && 2 * off_line(a, b, t) + larger(size(b.0 - a.0), size(b.1 - a.1)) <= 2
                * (size(b.0 - a.0) + size(b.1 - a.1)) ==> map.tile(
                (#[trigger] t.0) as int,
                (#[trigger] t.1) as int,
                0,
            ),
    ensures
        sees(map, a, b),
{
    let (dx, dy) = (abs_int(b.0 - a.0), abs_int(b.1 - a.1));
    assert(0 * dx == 0 && 0 * dy == 0);
    lemma_open_rest(map, a, b, 0, 0);
}

proof fn lemma_passes(line: Seq<Tile>, from: int, to: int, rows: bool, k: int)
    requires
        0 <= k < line.len(),
        forall|m: int| 0 < m < line.len() ==> touching(line[m - 1], #[trigger] line[m]),
        ({
            let start: int = if rows {
                line[k].1 as int
            } else {
                line[k].0 as int
            };
            start == from
        }),
        ({
            let stop: int = if rows {
                line.last().1 as int
            } else {
                line.last().0 as int
            };
            between(from, stop, to)
        }),
    ensures
        exists|m: int|
            0 <= m < line.len() && (if rows {
                (#[trigger] line[m]).1 as int
            } else {
                line[m].0 as int
            }) == to,
    decreases line.len() - k,
{
    if from == to {
        assert(line[k].0 == line[k].0);
    } else if k + 1 < line.len() {
        let next: int = if rows {
            line[k + 1].1 as int
        } else {
            line[k + 1].0 as int
        };
        assert(touching(line[k + 1 - 1], line[k + 1]));
        let stop: int = if rows {
            line.last().1 as int
        } else {
            line.last().0 as int
        };
        if between(next, stop, to) {
            lemma_passes(line, next, to, rows, k + 1);
        }
    } else {
        assert(line[k] == line.last());
    }
}

/// Along a column of tiles, sight is the walkability of every tile from the one end to the
/// other.
pub proof fn columns_are_seen_tile_by_tile(map: Hypermap<bool>, a: Tile, b: Tile)
    requires
        a.0 == b.0,
    ensures
        sees(map, a, b) <==> forall|y: int|
            between(a.1 as int, b.1 as int, y) ==> #[trigger] map.tile(a.0 as int, y, 0),
{
    if sees(map, a, b) {
        sight_runs_over_walkable_tiles(map, a, b);
        let line = choose|line: Seq<Tile>| #[trigger]
            clear_line(map, a, b, line) && line[0] == a;
        assert forall|y: int| between(a.1 as int, b.1 as int, y) implies #[trigger] map.tile(
            a.0 as int,
            y,
            0,
        ) by {
            lemma_passes(line, a.1 as int, y, true, 0);
            let m = choose|m: int| 0 <= m < line.len() && (#[trigger] line[m]).1 == y;
            assert(within_half_a_tile(a, b, line[m]));
        }
    }
    if forall|y: int|
        between(a.1 as int, b.1 as int, y) ==> #[trigger] map.tile(a.0 as int, y, 0) {
        open_ground_hides_nothing(map, a, b);
    }
}

/// Along a row of tiles, sight is the walkability of every tile from the one end to the other.
pub proof fn rows_are_seen_tile_by_tile(map: Hypermap<bool>, a: Tile, b: Tile)
    requires
        a.1 == b.1,
    ensures
        sees(map, a, b) <==> forall|x: int|
            between(a.0 as int, b.0 as int, x) ==> #[trigger] map.tile(x, a.1 as int, 0),
{
    if sees(map, a, b) {
        sight_runs_over_walkable_tiles(map, a, b);
        let line = choose|line: Seq<Tile>| #[trigger]
            clear_line(map, a, b, line) && line[0] == a;
        assert forall|x: int| between(a.0 as int, b.0 as int, x) implies #[trigger] map.tile(
            x,
            a.1 as int,
            0,
        ) by {
            lemma_passes(line, a.0 as int, x, false, 0);
            let m = choose|m: int| 0 <= m < line.len() && (#[trigger] line[m]).0 == x;
            assert(within_half_a_tile(a, b, line[m]));
        }
    }
    if forall|x: int|
        between(a.0 as int, b.0 as int, x) ==> #[trigger] map.tile(x, a.1 as int, 0) {
        open_ground_hides_nothing(map, a, b);
    }
}

proof fn lemma_still_seen(map: Hypermap<bool>, wider: Hypermap<bool>, a: Tile, b: Tile, i: int, j: int)
    requires
        0 <= i <= abs_int(b.0 - a.0),
        0 <= j <= abs_int(b.1 - a.1),
        sees_from(map, a, b, i, j),
        forall|x: int, y: int|
            between(a.0 as int, b.0 as int, x) && between(a.1 as int, b.1 as int, y) && map.tile(
                x,
                y,
                0,
            ) ==> #[trigger] wider.tile(x, y, 0),
    ensures
        sees_from(wider, a, b, i, j),
    decreases abs_int(b.0 - a.0) - i + abs_int(b.1 - a.1) - j,
{
    lemma_arrived(a, b, i, j);
    lemma_on_the_way(a, b, i, j);
    if tile_towards(a, b, i, j) != b {
        lemma_line_advances(a, b, i, j);
        let (column, row) = (crosses_column(a, b, i, j), crosses_row(a, b, i, j));
        if column && row {
            lemma_on_the_way(a, b, i + 1, j);
            lemma_on_the_way(a, b, i, j + 1);
        }
        lemma_still_seen(
            map,
            wider,
            a,
            b,
            if column {
                i + 1
            } else {
                i
            },
            if row {
                j + 1
            } else {
                j
            },
        );
    }
}

/// Clearing tiles hides nothing, and only the tiles of the box that the two span matter: what
/// is seen stays seen where every walkable tile of that box stays walkable.
pub proof fn clearing_tiles_hides_nothing(
    map: Hypermap<bool>,
    wider: Hypermap<bool>,
    a: Tile,
    b: Tile,
)
    requires
        sees(map, a, b),
        forall|x: int, y: int|
            between(a.0 as int, b.0 as int, x) && between(a.1 as int, b.1 as int, y) && map.tile(
                x,
                y,
                0,
            ) ==> #[trigger] wider.tile(x, y, 0),
    ensures
        sees(wider, a, b),
{
    lemma_still_seen(map, wider, a, b, 0, 0);
}

} // verus!
