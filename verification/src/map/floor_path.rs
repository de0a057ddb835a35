//! Paths on parsed floors and short detours between subtiles.
use vstd::prelude::*;

use crate::map::hypermap_pathfind::tile_walkable;
use crate::map::search::{abs_int, adjacent, tile_distance, Tile};
use crate::map::tile_graph::{astar_tiles, found_over, lists, TileGraph};
use crate::map::world_map_floor::{
    first_mark, fits, good_rows, parse_fails, text_rows, MapParseError, PathMarkers,
    WorldMapFloor, MAX_FLOOR_CELLS,
};
use crate::reach::{joined, reaches, reaches_within, walks};

verus! {

/// Whether (x, y) is a road cell of the floor.
pub open spec fn on_road(floor: WorldMapFloor, x: int, y: int) -> bool {
    0 <= x < floor.columns() && 0 <= y < floor.lines() && floor.cell(x, y) is Road
}

/// Whether a path on the floor may go from `a` to `b`.
pub open spec fn floor_joins(floor: WorldMapFloor, a: Tile, b: Tile) -> bool {
    adjacent(a, b) && on_road(floor, b.0 as int, b.1 as int)
}

/// The steps of a path on the floor.
pub open spec fn floor_step(floor: WorldMapFloor) -> spec_fn(Tile, Tile) -> bool {
    |a: Tile, b: Tile| floor_joins(floor, a, b)
}

fn floor_walkable(floor: &WorldMapFloor, x: i64, y: i64) -> (open: bool)
    requires
        floor.wf(),
    ensures
        open == on_road(*floor, x as int, y as int),
{
    if x < 0 || y < 0 || x > MAX_FLOOR_CELLS as i64 || y > MAX_FLOOR_CELLS as i64 {
        proof {
            lemma_floor_bounds(*floor);
        }
        return false;
    }
    match floor.get(x as usize, y as usize) {
        Some(cell) => tile_walkable(cell),
        None => false,
    }
}

proof fn lemma_floor_bounds(floor: WorldMapFloor)
    requires
        floor.wf(),
    ensures
        floor.columns() + floor.lines() - 1 <= floor.columns() * floor.lines() <= MAX_FLOOR_CELLS,
{
    let w = floor.columns();
    let h = floor.lines();
    assert(w + h - 1 <= w * h) by (nonlinear_arith)
        requires
            w >= 1,
            h >= 1,
    ;
}

/// A floor as a graph of its road cells.
struct FloorGraph<'a> {
    floor: &'a WorldMapFloor,
}

fn push_floor_tile(
    out: &mut Vec<((i32, i32), u32)>,
    floor: &WorldMapFloor,
    x: i64,
    y: i64,
    Ghost(t): Ghost<Tile>,
)
    requires
        floor.wf(),
        abs_int(x - t.0) + abs_int(y - t.1) == 1,
        forall|i: int|
            0 <= i < old(out)@.len() ==> floor_joins(*floor, t, (#[trigger] old(out)@[i]).0)
                && old(out)@[i].1 == 1,
    ensures
        forall|i: int|
            0 <= i < final(out)@.len() ==> floor_joins(*floor, t, (#[trigger] final(out)@[i]).0)
                && final(out)@[i].1 == 1,
        forall|p: (Tile, u32)| #[trigger] old(out)@.contains(p) ==> final(out)@.contains(p),
        on_road(*floor, x as int, y as int) ==> final(out)@.contains(((x as i32, y as i32), 1u32)),
{
    if floor_walkable(floor, x, y) {
        proof {
            lemma_floor_bounds(*floor);
        }
        out.push(((x as i32, y as i32), 1));
        proof {
            assert(out@.last() == ((x as i32, y as i32), 1u32));
            assert forall|p: (Tile, u32)| #[trigger] old(out)@.contains(p) implies out@.contains(
                p,
            ) by {
                let i = choose|i: int| 0 <= i < old(out)@.len() && old(out)@[i] == p;
                assert(out@[i] == p);
            }
        }
    }
}

impl<'a> TileGraph for FloorGraph<'a> {
    closed spec fn follows(&self, step: spec_fn(Tile, Tile) -> bool) -> bool {
        step == floor_step(*self.floor)
    }

    closed spec fn holds(&self, t: Tile) -> bool {
        0 <= t.0 < self.floor.columns() && 0 <= t.1 < self.floor.lines()
    }

    closed spec fn extent(&self) -> int {
        self.floor.columns() * self.floor.lines()
    }

    closed spec fn allowance(&self) -> Option<nat> {
        None
    }

    closed spec fn valid(&self) -> bool {
        self.floor.wf()
    }

    proof fn edges_are_short(&self) {
        lemma_floor_bounds(*self.floor);
    }

    fn successors(&mut self, t: &(i32, i32)) -> (next: Vec<((i32, i32), u32)>) {
        let mut out: Vec<((i32, i32), u32)> = Vec::with_capacity(4);
        let x: i64 = t.0 as i64;
        let y: i64 = t.1 as i64;
        push_floor_tile(&mut out, self.floor, x + 1, y, Ghost(*t));
        push_floor_tile(&mut out, self.floor, x - 1, y, Ghost(*t));
        push_floor_tile(&mut out, self.floor, x, y + 1, Ghost(*t));
        push_floor_tile(&mut out, self.floor, x, y - 1, Ghost(*t));
        proof {
            let step = floor_step(*self.floor);
            let wanted = |b: Tile| step(*t, b);
            assert forall|b: Tile| #[trigger] wanted(b) implies out@.contains((b, 1u32)) by {
                assert(floor_joins(*self.floor, *t, b));
                assert(on_road(*self.floor, b.0 as int, b.1 as int));
            }
            assert(lists(out@, wanted));
        }
        out
    }
}

/// Whether `path` is made of the same places as `tiles`.
pub open spec fn same_places(path: Seq<(usize, usize)>, tiles: Seq<Tile>) -> bool {
    path.len() == tiles.len() && forall|i: int|
        0 <= i < path.len() ==> (#[trigger] path[i]).0 == tiles[i].0 && path[i].1 == tiles[i].1
}

/// Whether `found` is a shortest path over road cells from `start` to `goal`, or nothing
/// where there is none.
pub open spec fn is_floor_path(
    floor: WorldMapFloor,
    start: (usize, usize),
    goal: (usize, usize),
    found: Option<Vec<(usize, usize)>>,
) -> bool {
    let a = (start.0 as i32, start.1 as i32);
    let b = (goal.0 as i32, goal.1 as i32);
    let road = on_road(floor, start.0 as int, start.1 as int) && on_road(
        floor,
        goal.0 as int,
        goal.1 as int,
    );
    match found {
        Some(path) => road && exists|tiles: Seq<Tile>|
            {
                &&& #[trigger] walks(floor_step(floor), a, b, tiles)
                &&& tiles.no_duplicates()
                &&& same_places(path@, tiles)
                &&& forall|n: int| #[trigger]
                    reaches_within(floor_step(floor), a, b, n) ==> path@.len() <= n + 1
            },
        None => !road || !reaches(floor_step(floor), a, b),
    }
}

/// Shortest 4-neighbor path on a parsed floor (library A*). Returns `None` if unreachable.
pub fn shortest_path_on_floor(
    floor: &WorldMapFloor,
    start: (usize, usize),
    goal: (usize, usize),
) -> (found: Option<Vec<(usize, usize)>>)
    requires
        floor.wf(),
    ensures
        is_floor_path(*floor, start, goal, found),
{
    proof {
        lemma_floor_bounds(*floor);
    }
    let limit: usize = MAX_FLOOR_CELLS;
    if start.0 > limit || start.1 > limit || goal.0 > limit || goal.1 > limit {
        return None;
    }
    if !floor_walkable(floor, start.0 as i64, start.1 as i64) || !floor_walkable(
        floor,
        goal.0 as i64,
        goal.1 as i64,
    ) {
        return None;
    }
    let a: Tile = (start.0 as i32, start.1 as i32);
    let b: Tile = (goal.0 as i32, goal.1 as i32);
    let graph = FloorGraph { floor };
    let ghost step = floor_step(*floor);
    proof {
        assert(graph.follows(step));
    }
    match astar_tiles(a, b, graph) {
        None => None,
        Some(tiles) => {
            let mut path: Vec<(usize, usize)> = Vec::with_capacity(tiles.len());
            let mut i: usize = 0;
            while i < tiles.len()
                invariant
                    i <= tiles@.len(),
                    path@.len() == i,
                    on_road(*floor, a.0 as int, a.1 as int),
                    walks(step, a, b, tiles@),
                    step == floor_step(*floor),
                    same_places(path@, tiles@.take(i as int)),
                decreases tiles@.len() - i,
            {
                let (x, y) = tiles[i];
                proof {
                    if i > 0 {
                        assert(joined(step, tiles@, i - 1));
                    }
                    assert(on_road(*floor, x as int, y as int));
                }
                path.push((x as usize, y as usize));
                i += 1;
                assert(same_places(path@, tiles@.take(i as int)));
            }
            assert(tiles@.take(i as int) =~= tiles@);
            Some(path)
        },
    }
}

/// Whether the floor and the markers are what the rows say.
pub open spec fn shows_marked(
    floor: WorldMapFloor,
    markers: PathMarkers,
    rows: Seq<Seq<char>>,
) -> bool {
    &&& rows.len() > 0
    &&& fits(rows)
    &&& good_rows(rows, true, rows.len() as int)
    &&& floor.wf()
    &&& floor.shows(rows, true)
    &&& first_mark(rows, 'A', markers.path_a)
    &&& first_mark(rows, 'B', markers.path_b)
}

/// Convenience: parse a text map with `>A` / `>B` and run [`shortest_path_on_floor`] between
/// the markers; without both markers there is no path.
pub fn shortest_path_from_ascii_markers(ascii: &str) -> (found: Result<
    Option<Vec<(usize, usize)>>,
    MapParseError,
>)
    ensures
        match found {
            Err(err) => parse_fails(text_rows(ascii@, 0), true, err),
            Ok(found) => exists|floor: WorldMapFloor, markers: PathMarkers| #[trigger]
                shows_marked(floor, markers, text_rows(ascii@, 0)) && match (
                    markers.path_a,
                    markers.path_b,
                ) {
                    (Some(a), Some(b)) => is_floor_path(floor, a, b, found),
                    _ => found is None,
                },
        },
{
    match WorldMapFloor::from_ascii_with_path_markers(ascii) {
        Err(err) => Err(err),
        Ok((floor, markers)) => {
            let found = match (markers.path_a, markers.path_b) {
                (Some(a), Some(b)) => shortest_path_on_floor(&floor, a, b),
                _ => None,
            };
            proof {
                let rows = text_rows(ascii@, 0);
                assert(shows_marked(floor, markers, rows));
            }
            Ok(found)
        },
    }
}

/// Whether the subtile passes the footprint test.
pub open spec fn is_clear<F: Fn((i32, i32)) -> bool>(is_free: F, t: Tile) -> bool {
    call_ensures(is_free, (t,), true)
}

/// Whether `t` lies in the bounding box of `start` and `goal`, grown by `pad` on every side.
pub open spec fn in_detour_box(start: Tile, goal: Tile, pad: i32, t: Tile) -> bool {
    &&& t.0 >= start.0 - pad || t.0 >= goal.0 - pad
    &&& t.0 <= start.0 + pad || t.0 <= goal.0 + pad
    &&& t.1 >= start.1 - pad || t.1 >= goal.1 - pad
    &&& t.1 <= start.1 + pad || t.1 <= goal.1 + pad
}

/// The subtiles that pass the footprint test.
pub open spec fn clear_ones<F: Fn((i32, i32)) -> bool>(is_free: F) -> spec_fn(Tile) -> bool {
    |t: Tile| is_clear(is_free, t)
}

/// Whether every answer of the test, about `start` aside, is the one that `free` gives.
pub open spec fn test_follows<F: Fn((i32, i32)) -> bool>(
    is_free: F,
    start: Tile,
    free: spec_fn(Tile) -> bool,
) -> bool {
    forall|t: Tile, answer: bool| #[trigger]
        call_ensures(is_free, (t,), answer) && t != start ==> answer == free(t)
}

/// Whether the test never gives two answers, about `start` aside.
pub open spec fn test_steady<F: Fn((i32, i32)) -> bool>(is_free: F, start: Tile) -> bool {
    forall|t: Tile|
        t != start ==> !(call_ensures(is_free, (t,), true) && #[trigger] call_ensures(
            is_free,
            (t,),
            false,
        ))
}

/// Whether a detour may go from `a` to `b`: to a neighbour inside the box that is free or
/// where the actor stands.
pub open spec fn detour_joins(
    start: Tile,
    goal: Tile,
    pad: i32,
    free: spec_fn(Tile) -> bool,
    a: Tile,
    b: Tile,
) -> bool {
    adjacent(a, b) && in_detour_box(start, goal, pad, b) && (b == start || free(b))
}

/// The steps of a detour.
pub open spec fn detour_step(
    start: Tile,
    goal: Tile,
    pad: i32,
    free: spec_fn(Tile) -> bool,
) -> spec_fn(Tile, Tile) -> bool {
    |a: Tile, b: Tile| detour_joins(start, goal, pad, free, a, b)
}

/// Number of subtiles in the box of a detour.
pub open spec fn detour_box_size(start: Tile, goal: Tile, pad: i32) -> int {
    (abs_int(start.0 - goal.0) + 2 * pad + 1) * (abs_int(start.1 - goal.1) + 2 * pad + 1)
}

struct DetourGraph<F: Fn((i32, i32)) -> bool> {
    start: (i32, i32),
    goal: (i32, i32),
    pad: i32,
    is_free: F,
    left: usize,
}

impl<F: Fn((i32, i32)) -> bool> DetourGraph<F> {
    fn in_box(&self, x: i64, y: i64) -> (inside: bool)
        requires
            i32::MIN <= x <= i32::MAX,
            i32::MIN <= y <= i32::MAX,
        ensures
            inside == in_detour_box(self.start, self.goal, self.pad, (x as i32, y as i32)),
    {
        let pad: i64 = self.pad as i64;
        let (ax, ay) = (self.start.0 as i64, self.start.1 as i64);
        let (bx, by) = (self.goal.0 as i64, self.goal.1 as i64);
        (x >= ax - pad || x >= bx - pad) && (x <= ax + pad || x <= bx + pad) && (y >= ay - pad || y
            >= by - pad) && (y <= ay + pad || y <= by + pad)
    }

    spec fn joins(self, free: spec_fn(Tile) -> bool, a: Tile, b: Tile) -> bool {
        detour_joins(self.start, self.goal, self.pad, free, a, b)
    }

    /// Whether the tiles of `out` are neighbours of `t` inside the box, each at cost 1, and
    /// joined to `t` whatever predicate the test follows.
    spec fn proper(self, t: Tile, out: Seq<((i32, i32), u32)>) -> bool {
        &&& forall|i: int|
            0 <= i < out.len() ==> (#[trigger] out[i]).1 == 1 && adjacent(t, out[i].0)
                && self.holds(out[i].0)
        &&& forall|free: spec_fn(Tile) -> bool, i: int|
            #![trigger test_follows(self.is_free, self.start, free), out[i]]
            test_follows(self.is_free, self.start, free) && 0 <= i < out.len() ==> self.joins(
                free,
                t,
                out[i].0,
            )
    }

    /// What the answers follow does not depend on how many are left.
    proof fn lemma_follows_kept(self, after: Self)
        requires
            after.start == self.start,
            after.goal == self.goal,
            after.pad == self.pad,
            after.is_free == self.is_free,
        ensures
            forall|step: spec_fn(Tile, Tile) -> bool| #[trigger]
                after.follows(step) == self.follows(step),
    {
        assert forall|step: spec_fn(Tile, Tile) -> bool| #[trigger] after.follows(step)
            == self.follows(step) by {
            if self.follows(step) {
                let free = choose|free: spec_fn(Tile) -> bool| #[trigger]
                    test_follows(self.is_free, self.start, free) && step == detour_step(
                        self.start,
                        self.goal,
                        self.pad,
                        free,
                    );
                assert(test_follows(after.is_free, after.start, free));
            }
            if after.follows(step) {
                let free = choose|free: spec_fn(Tile) -> bool| #[trigger]
                    test_follows(after.is_free, after.start, free) && step == detour_step(
                        after.start,
                        after.goal,
                        after.pad,
                        free,
                    );
                assert(test_follows(self.is_free, self.start, free));
            }
        }
    }

    fn push_clear(
        &self,
        out: &mut Vec<((i32, i32), u32)>,
        x: i64,
        y: i64,
        Ghost(t): Ghost<Tile>,
    )
        requires
            self.valid(),
            abs_int(x - t.0) + abs_int(y - t.1) == 1,
            self.proper(t, old(out)@),
        ensures
            self.proper(t, final(out)@),
            forall|p: (Tile, u32)| #[trigger] old(out)@.contains(p) ==> final(out)@.contains(p),
            i32::MIN <= x <= i32::MAX && i32::MIN <= y <= i32::MAX ==> forall|
                free: spec_fn(Tile) -> bool,
            | #[trigger]
                test_follows(self.is_free, self.start, free) && self.joins(
                    free,
                    t,
                    (x as i32, y as i32),
                ) ==> final(out)@.contains(((x as i32, y as i32), 1u32)),
    {
        if x < i32::MIN as i64 || x > i32::MAX as i64 || y < i32::MIN as i64 || y > i32::MAX as i64 {
            return;
        }
        let next: Tile = (x as i32, y as i32);
        let stands: bool = next.0 == self.start.0 && next.1 == self.start.1;
        if self.in_box(x, y) && (stands || (self.is_free)(next)) {
            let ghost before = out@;
            out.push((next, 1));
            proof {
                assert(out@.last() == (next, 1u32));
                assert forall|p: (Tile, u32)| #[trigger]
                    old(out)@.contains(p) implies out@.contains(p) by {
                    let i = choose|i: int| 0 <= i < old(out)@.len() && old(out)@[i] == p;
                    assert(out@[i] == p);
                }
                assert forall|free: spec_fn(Tile) -> bool, i: int|
                    #![trigger test_follows(self.is_free, self.start, free), out@[i]]
                    test_follows(self.is_free, self.start, free) && 0 <= i
                        < out@.len() implies self.joins(free, t, out@[i].0) by {
                    if i < before.len() {
                        assert(out@[i] == before[i]);
                    }
                }
            }
        }
    }
}

impl<F: Fn((i32, i32)) -> bool> TileGraph for DetourGraph<F> {
    closed spec fn follows(&self, step: spec_fn(Tile, Tile) -> bool) -> bool {
        exists|free: spec_fn(Tile) -> bool| #[trigger]
            test_follows(self.is_free, self.start, free) && step == detour_step(
                self.start,
                self.goal,
                self.pad,
                free,
            )
    }

    closed spec fn holds(&self, t: Tile) -> bool {
        in_detour_box(self.start, self.goal, self.pad, t)
    }

    closed spec fn extent(&self) -> int {
        detour_box_size(self.start, self.goal, self.pad)
    }

    closed spec fn allowance(&self) -> Option<nat> {
        Some(self.left as nat)
    }

    closed spec fn valid(&self) -> bool {
        &&& self.pad >= 0
        &&& detour_box_size(self.start, self.goal, self.pad) <= 0x8000_0000
        &&& forall|t: Tile| t != self.start ==> #[trigger] call_requires(self.is_free, (t,))
    }

    proof fn edges_are_short(&self) {
        let w = abs_int(self.start.0 - self.goal.0) + 2 * self.pad + 1;
        let h = abs_int(self.start.1 - self.goal.1) + 2 * self.pad + 1;
        assert(w + h - 1 <= w * h) by (nonlinear_arith)
            requires
                w >= 1,
                h >= 1,
        ;
    }

    fn successors(&mut self, t: &(i32, i32)) -> (next: Vec<((i32, i32), u32)>) {
        let mut out: Vec<((i32, i32), u32)> = Vec::with_capacity(4);
        if self.left == 0 {
            return out;
        }
        self.left = self.left - 1;
        let x: i64 = t.0 as i64;
        let y: i64 = t.1 as i64;
        self.push_clear(&mut out, x + 1, y, Ghost(*t));
        self.push_clear(&mut out, x - 1, y, Ghost(*t));
        self.push_clear(&mut out, x, y + 1, Ghost(*t));
        self.push_clear(&mut out, x, y - 1, Ghost(*t));
        proof {
            old(self).lemma_follows_kept(*self);
            assert forall|step: spec_fn(Tile, Tile) -> bool| #[trigger]
                old(self).follows(step) implies lists(out@, |b: Tile| step(*t, b)) by {
                let free = choose|free: spec_fn(Tile) -> bool| #[trigger]
                    test_follows(self.is_free, self.start, free) && step == detour_step(
                        self.start,
                        self.goal,
                        self.pad,
                        free,
                    );
                let wanted = |b: Tile| step(*t, b);
                assert forall|b: Tile| #[trigger] wanted(b) implies out@.contains((b, 1u32)) by {
                    assert(self.joins(free, *t, b));
                }
                assert(lists(out@, wanted));
            }
        }
        out
    }
}

/// A short detour between two subtiles around what blocks the straight line.
///
/// The search is deliberately local:
/// - it is refused outright when the Manhattan distance between `start` and `goal`
///   exceeds `max_span` subtiles (the detour is only for short distances);
/// - expansion is confined to the bounding box of `start`/`goal` grown by `pad`
///   subtiles on every side;
/// - it stops after `max_expanded` node expansions.
///
/// `start` is assumed already occupiable (it is where the actor stands) and is
/// never passed to `is_free`; `goal` must be `is_free` to be reachable. Returns
/// the subtile path including both endpoints, or `None` when no route fits the
/// bounds.
pub fn astar_subtile_detour<F: Fn((i32, i32)) -> bool>(
    start: (i32, i32),
    goal: (i32, i32),
    pad: i32,
    max_span: i32,
    max_expanded: usize,
    is_free: F,
) -> (found: Option<Vec<(i32, i32)>>)
    requires
        start != goal && pad >= 0 && tile_distance(start, goal) <= max_span ==> detour_box_size(
            start,
            goal,
            pad,
        ) <= 0x8000_0000,
        forall|t: Tile| t != start ==> #[trigger] call_requires(is_free, (t,)),
    ensures
        start == goal ==> found is Some && found->0@ == seq![start],
        start != goal && tile_distance(start, goal) > max_span ==> found is None,
        start != goal && tile_distance(start, goal) <= max_span ==> forall|
            free: spec_fn(Tile) -> bool,
        | #[trigger]
            test_follows(is_free, start, free) ==> found_over(
                detour_step(start, goal, pad, free),
                start,
                goal,
                Some(max_expanded as nat),
                found,
            ),
        start != goal && tile_distance(start, goal) <= max_span && test_steady(is_free, start)
            ==> found_over(
            detour_step(start, goal, pad, clear_ones(is_free)),
            start,
            goal,
            Some(max_expanded as nat),
            found,
        ),
{
    if start.0 == goal.0 && start.1 == goal.1 {
        let mut path: Vec<(i32, i32)> = Vec::new();
        path.push(start);
        assert(path@ =~= seq![start]);
        return Some(path);
    }
    let dx: i64 = start.0 as i64 - goal.0 as i64;
    let dy: i64 = start.1 as i64 - goal.1 as i64;
    let ax: i64 = if dx < 0 { -dx } else { dx };
    let ay: i64 = if dy < 0 { -dy } else { dy };
    if ax + ay > max_span as i64 {
        return None;
    }
    proof {
        if test_steady(is_free, start) {
            assert(test_follows(is_free, start, clear_ones(is_free)));
        }
    }
    if pad < 0 {
        proof {
            assert forall|free: spec_fn(Tile) -> bool| #[trigger]
                test_follows(is_free, start, free) implies !reaches(
                detour_step(start, goal, pad, free),
                start,
                goal,
            ) by {
                let step = detour_step(start, goal, pad, free);
                if reaches(step, start, goal) {
                    let path = choose|path: Seq<Tile>| walks(step, start, goal, path);
                    assert(path.len() >= 2);
                    assert(joined(step, path, path.len() - 2));
                    assert(in_detour_box(start, goal, pad, goal));
                }
            }
        }
        return None;
    }
    let graph = DetourGraph { start, goal, pad, is_free, left: max_expanded };
    proof {
        assert forall|free: spec_fn(Tile) -> bool| #[trigger]
            test_follows(is_free, start, free) implies graph.follows(
            detour_step(start, goal, pad, free),
        ) by {
            assert(test_follows(graph.is_free, graph.start, free));
        }
    }
    let found = astar_tiles(start, goal, graph);
    proof {
        assert forall|free: spec_fn(Tile) -> bool| #[trigger]
            test_follows(is_free, start, free) implies found_over(
            detour_step(start, goal, pad, free),
            start,
            goal,
            Some(max_expanded as nat),
            found,
        ) by {
            assert(graph.follows(detour_step(start, goal, pad, free)));
        }
    }
    found
}

} // verus!
