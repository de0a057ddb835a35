//! Best-first search over walkable world tiles.
//!
//! [`Search`] keeps the frontier, the best known step count of every discovered
//! tile and the tile it was reached from. Tiles are taken off the frontier in rank
//! order; a tile that is taken off carries its true distance from the start, so
//! each tile is expanded at most once.

use std::collections::HashMap;

use vstd::prelude::*;

use crate::heap::{MinHeap, OpenNode};
use crate::map::hypermap::Hypermap;
use crate::reach::{
    is_walk, joined, lemma_reaches_self, lemma_reaches_within_step, reaches_within, walks,
};

verus! {

broadcast use vstd::std_specs::hash::group_hash_axioms;

/// A world tile.
pub type Tile = (i32, i32);

/// Each grid step costs this many scaled units. Leaves headroom for an additive
/// line-pull tie-breaker below the step cost.
pub const STEP_SCALE: u32 = 1024;

/// Whether a follower may stand on the tile: the static passability of its ground floor.
pub open spec fn walkable(map: Hypermap<bool>, t: Tile) -> bool {
    map.tile(t.0 as int, t.1 as int, 0)
}

pub open spec fn abs_int(a: int) -> int {
    if a < 0 {
        -a
    } else {
        a
    }
}

/// Manhattan distance.
pub open spec fn tile_distance(a: Tile, b: Tile) -> int {
    abs_int(a.0 - b.0) + abs_int(a.1 - b.1)
}

/// Whether two tiles share an edge.
pub open spec fn adjacent(a: Tile, b: Tile) -> bool {
    tile_distance(a, b) == 1
}

/// One step of a follower: onto a walkable tile that shares an edge.
pub open spec fn tile_step(map: Hypermap<bool>) -> spec_fn(Tile, Tile) -> bool {
    |a: Tile, b: Tile| adjacent(a, b) && walkable(map, b)
}

/// Twice the area of the triangle (start, goal, node), cut off below the cost of a step.
#[verifier::opaque]
pub open spec fn line_pull(start: Tile, goal: Tile, node: Tile) -> int {
    let cross = abs_int(
        (node.0 - goal.0) * (start.1 - goal.1) - (start.0 - goal.0) * (node.1 - goal.1),
    );
    if cross < 1023 {
        cross
    } else {
        1023
    }
}

/// Estimated steps from `t` to the aim; nothing without an aim.
pub open spec fn remaining(aim: Option<Tile>, t: Tile) -> int {
    match aim {
        Some(goal) => tile_distance(t, goal),
        None => 0,
    }
}

/// The rank by which a tile at `steps` steps is expanded: the scaled estimate of the
/// whole walk, and below one step the pull towards the straight line.
#[verifier::opaque]
pub open spec fn rank_of(start: Tile, aim: Option<Tile>, t: Tile, steps: int) -> int {
    1024 * (steps + remaining(aim, t)) + match aim {
        Some(goal) => line_pull(start, goal, t),
        None => 0,
    }
}

proof fn lemma_rank_window(start: Tile, aim: Option<Tile>, t: Tile, steps: int)
    ensures
        1024 * (steps + remaining(aim, t)) <= rank_of(start, aim, t, steps) <= 1024 * (steps
            + remaining(aim, t)) + 1023,
        0 <= remaining(aim, t) <= 0x2_0000_0000,
{
    reveal(rank_of);
    reveal(line_pull);
}

/// More steps to a tile mean a higher rank.
proof fn lemma_rank_grows(start: Tile, aim: Option<Tile>, t: Tile, m: int, n: int)
    requires
        m <= n,
    ensures
        m < n ==> rank_of(start, aim, t, m) < rank_of(start, aim, t, n),
{
    reveal(rank_of);
}

/// The pull towards the straight line never reorders tiles whose estimates differ.
pub proof fn the_pull_never_reorders(
    start: Tile,
    aim: Option<Tile>,
    a: Tile,
    steps_a: int,
    b: Tile,
    steps_b: int,
)
    requires
        steps_a + remaining(aim, a) < steps_b + remaining(aim, b),
    ensures
        rank_of(start, aim, a, steps_a) < rank_of(start, aim, b, steps_b),
{
    lemma_rank_window(start, aim, a, steps_a);
    lemma_rank_window(start, aim, b, steps_b);
}

/// Of two tiles with the same estimate, the one nearer to the straight line goes first.
pub proof fn nearer_the_line_goes_first(
    start: Tile,
    goal: Tile,
    a: Tile,
    steps_a: int,
    b: Tile,
    steps_b: int,
)
    requires
        steps_a + tile_distance(a, goal) == steps_b + tile_distance(b, goal),
        line_pull(start, goal, a) < line_pull(start, goal, b),
    ensures
        goes_first(start, Some(goal), a, steps_a, b, steps_b),
        !goes_first(start, Some(goal), b, steps_b, a, steps_a),
{
    reveal(rank_of);
}

/// Distance from the start in steps: some walk has that length and none is shorter.
pub open spec fn distance_is(map: Hypermap<bool>, start: Tile, t: Tile, n: int) -> bool {
    &&& reaches_within(tile_step(map), start, t, n)
    &&& forall|path: Seq<Tile>| #[trigger]
        walks(tile_step(map), start, t, path) ==> n <= path.len() - 1
}

pub proof fn lemma_distance_unique(map: Hypermap<bool>, start: Tile, t: Tile, m: int, n: int)
    requires
        distance_is(map, start, t, m),
        distance_is(map, start, t, n),
    ensures
        m == n,
{
    let p = choose|p: Seq<Tile>| walks(tile_step(map), start, t, p) && p.len() <= m + 1;
    let q = choose|q: Seq<Tile>| walks(tile_step(map), start, t, q) && q.len() <= n + 1;
    assert(walks(tile_step(map), start, t, p));
    assert(walks(tile_step(map), start, t, q));
}

/// Whether `a` at `m` steps is taken off the frontier no later than `b` at `n` steps: by
/// rank, then by steps, then by coordinates.
pub open spec fn goes_first(
    start: Tile,
    aim: Option<Tile>,
    a: Tile,
    m: int,
    b: Tile,
    n: int,
) -> bool {
    let ra = rank_of(start, aim, a, m);
    let rb = rank_of(start, aim, b, n);
    ra < rb || (ra == rb && (m < n || (m == n && (a.0 < b.0 || (a.0 == b.0 && a.1 <= b.1)))))
}

/// Whether one of the tiles before place `j` is a step away from the tile there.
pub open spec fn led_to(map: Hypermap<bool>, seen: Seq<Tile>, j: int) -> bool {
    exists|i: int| 0 <= i < j && tile_step(map)(#[trigger] seen[i], seen[j])
}

/// Whether `seen` is the course of a best-first search: it begins at the start, every later
/// tile is a step away from one before it, and each tile goes first among all that wait, that
/// is, the tiles a step away from those before it that are not among them.
pub open spec fn course(
    map: Hypermap<bool>,
    start: Tile,
    aim: Option<Tile>,
    seen: Seq<Tile>,
) -> bool {
    &&& seen.no_duplicates()
    &&& seen.len() > 0 ==> seen[0] == start
    &&& forall|j: int| 0 < j < seen.len() ==> #[trigger] led_to(map, seen, j)
    &&& forall|i: int, j: int, u: Tile, m: int, n: int|
        #![trigger tile_step(map)(seen[i], u), seen.take(j).contains(u), distance_is(map, start, seen[i], m), distance_is(map, start, seen[j], n)]
        0 <= i < j < seen.len() && tile_step(map)(seen[i], u) && !seen.take(j).contains(u)
            && distance_is(map, start, seen[i], m) && distance_is(map, start, seen[j], n)
            ==> goes_first(start, aim, seen[j], n, u, m + 1)
}

/// Whether the tile at place `j` of the path is the first of the seen tiles that leads to the
/// next one by a shortest walk.
pub open spec fn led_first(
    map: Hypermap<bool>,
    start: Tile,
    seen: Seq<Tile>,
    path: Seq<Tile>,
    j: int,
) -> bool {
    exists|k: int|
        0 <= k < seen.len() && #[trigger] seen[k] == path[j] && forall|i: int|
            0 <= i < k && tile_step(map)(#[trigger] seen[i], path[j + 1]) ==> !distance_is(
                map,
                start,
                seen[i],
                j,
            )
}

/// Whether the path follows the course of a search back from its end: each tile was
/// discovered from the one before it.
pub open spec fn traced(map: Hypermap<bool>, start: Tile, seen: Seq<Tile>, path: Seq<Tile>) -> bool {
    forall|j: int| 0 <= j < path.len() - 1 ==> #[trigger] led_first(map, start, seen, path, j)
}

/// Without an aim the rank is the scaled step count alone.
proof fn lemma_rank_without_aim(start: Tile, t: Tile, steps: int)
    ensures
        rank_of(start, None, t, steps) == 1024 * steps,
{
    reveal(rank_of);
}

spec fn tile_key(t: Tile) -> int {
    (t.0 + 0x8000_0000) * 0x1_0000_0000 + (t.1 + 0x8000_0000)
}

fn key_of(t: Tile) -> (key: u64)
    ensures
        key == tile_key(t),
{
    (t.0 as i64 + 0x8000_0000) as u64 * 0x1_0000_0000 + (t.1 as i64 + 0x8000_0000) as u64
}

/// Walkability of one world tile.
pub fn world_tile_walkable(map: &Hypermap<bool>, wx: i32, wy: i32) -> (open: bool)
    requires
        map.wf(),
    ensures
        open == walkable(*map, (wx, wy)),
{
    map.get(wx, wy)
}

fn push_neighbor_if_walkable(map: &Hypermap<bool>, acc: &mut Vec<Tile>, n: Tile)
    requires
        map.wf(),
    ensures
        final(acc)@ == if walkable(*map, n) {
            old(acc)@.push(n)
        } else {
            old(acc)@
        },
{
    if world_tile_walkable(map, n.0, n.1) {
        acc.push(n);
    }
}

/// The tiles one step away from `pos`: east, west, south, north, as far as they
/// are walkable and lie in the coordinate range.
pub fn hypermap_successors(map: &Hypermap<bool>, pos: Tile) -> (out: Vec<Tile>)
    requires
        map.wf(),
    ensures
        out@.len() <= 4,
        forall|q: Tile| out@.contains(q) <==> #[trigger] tile_step(*map)(pos, q),
{
    let mut out: Vec<Tile> = Vec::with_capacity(4);
    let (x, y) = pos;
    if x < i32::MAX {
        push_neighbor_if_walkable(map, &mut out, (x + 1, y));
    }
    let ghost s1 = out@;
    assert(forall|q: Tile| s1.contains(q) <==> #[trigger] tile_step(*map)(pos, q) && q.0 == x + 1) by {
        if x < i32::MAX && walkable(*map, ((x + 1) as i32, y)) {
            assert(s1[0] == ((x + 1) as i32, y));
        }
    }
    if x > i32::MIN {
        push_neighbor_if_walkable(map, &mut out, (x - 1, y));
    }
    let ghost s2 = out@;
    proof {
        if s2.len() > s1.len() {
            lemma_push_contains(s1, ((x - 1) as i32, y));
        }
        assert(forall|q: Tile| s2.contains(q) <==> #[trigger] tile_step(*map)(pos, q) && q.1 == y);
    }
    if y < i32::MAX {
        push_neighbor_if_walkable(map, &mut out, (x, y + 1));
    }
    let ghost s3 = out@;
    proof {
        if s3.len() > s2.len() {
            lemma_push_contains(s2, (x, (y + 1) as i32));
        }
        assert(forall|q: Tile| s3.contains(q) <==> #[trigger] tile_step(*map)(pos, q) && q.1 >= y);
    }
    if y > i32::MIN {
        push_neighbor_if_walkable(map, &mut out, (x, y - 1));
    }
    proof {
        if out@.len() > s3.len() {
            lemma_push_contains(s3, (x, (y - 1) as i32));
        }
    }
    out
}

proof fn lemma_push_contains(s: Seq<Tile>, t: Tile)
    ensures
        forall|q: Tile| #[trigger] s.push(t).contains(q) <==> s.contains(q) || q == t,
{
    assert forall|q: Tile| #[trigger] s.push(t).contains(q) <==> s.contains(q) || q == t by {
        if s.contains(q) {
            let i = choose|i: int| 0 <= i < s.len() && s[i] == q;
            assert(s.push(t)[i] == q);
        }
        assert(s.push(t)[s.len() as int] == t);
        if s.push(t).contains(q) {
            let i = choose|i: int| 0 <= i < s.push(t).len() && s.push(t)[i] == q;
            if i < s.len() {
                assert(s[i] == q);
            }
        }
    }
}

/// Manhattan distance on the tile grid, in a type that holds it for all tiles.
fn wide_manhattan(a: Tile, b: Tile) -> (d: u64)
    ensures
        d == tile_distance(a, b),
        d <= 0x2_0000_0000,
{
    let dx: i64 = a.0 as i64 - b.0 as i64;
    let dy: i64 = a.1 as i64 - b.1 as i64;
    let ax: i64 = if dx < 0 { -dx } else { dx };
    let ay: i64 = if dy < 0 { -dy } else { dy };
    (ax + ay) as u64
}

/// Twice the signed area of the triangle (start, goal, node), absolute value.
///
/// Proportional to the perpendicular distance from `node` to the start-goal
/// line. Clamped so the bias is strictly less than [`STEP_SCALE`], guaranteeing
/// that adding it to a Manhattan estimate never reorders nodes whose Manhattan
/// distance to the goal differs by 1.
fn line_pull_bias(start: Tile, goal: Tile, node: Tile) -> (bias: u32)
    ensures
        bias == line_pull(start, goal, node),
        bias < STEP_SCALE,
{
    proof {
        reveal(line_pull);
    }
    let dx1: i128 = node.0 as i128 - goal.0 as i128;
    let dy1: i128 = node.1 as i128 - goal.1 as i128;
    let dx2: i128 = start.0 as i128 - goal.0 as i128;
    let dy2: i128 = start.1 as i128 - goal.1 as i128;
    proof {
        lemma_product_bound(dx1 as int, dy2 as int);
        lemma_product_bound(dx2 as int, dy1 as int);
    }
    let cross: i128 = dx1 * dy2 - dx2 * dy1;
    let area: i128 = if cross < 0 { -cross } else { cross };
    if area < 1023 {
        area as u32
    } else {
        1023
    }
}

proof fn lemma_product_bound(a: int, b: int)
    requires
        -0x1_0000_0000 < a < 0x1_0000_0000,
        -0x1_0000_0000 < b < 0x1_0000_0000,
    ensures
        -0x1_0000_0000_0000_0000 < a * b < 0x1_0000_0000_0000_0000,
{
    assert(-0x1_0000_0000_0000_0000 < a * b < 0x1_0000_0000_0000_0000) by (nonlinear_arith)
        requires
            -0x1_0000_0000 < a < 0x1_0000_0000,
            -0x1_0000_0000 < b < 0x1_0000_0000,
    ;
}

/// Frontier of a search that started on one walkable tile.
pub struct Search {
    open: MinHeap,
    best: HashMap<u64, usize>,
    came_from: HashMap<u64, (i32, i32)>,
    start: (i32, i32),
    aim: Option<(i32, i32)>,
    done: Ghost<Seq<Tile>>,
}

impl Search {
    pub closed spec fn origin(self) -> Tile {
        self.start
    }

    pub closed spec fn target(self) -> Option<Tile> {
        self.aim
    }

    /// Expanded tiles in the order of expansion.
    pub closed spec fn expanded(self) -> Seq<Tile> {
        self.done@
    }

    /// Whether the tile was discovered.
    pub closed spec fn knows(self, t: Tile) -> bool {
        self.best@.contains_key(tile_key(t) as u64)
    }

    /// Best known step count of a discovered tile.
    pub closed spec fn steps(self, t: Tile) -> int {
        self.best@[tile_key(t) as u64] as int
    }

    spec fn node(self, t: Tile) -> OpenNode {
        OpenNode {
            rank: rank_of(self.start, self.aim, t, self.steps(t)) as u128,
            steps: self.best@[tile_key(t) as u64],
            x: t.0,
            y: t.1,
        }
    }

    /// Whether the tile waits on the frontier with its best known step count.
    spec fn waiting(self, t: Tile) -> bool {
        self.open@.contains(self.node(t))
    }

    /// The expanded tile at place `k` was the first to hand `t` its step count.
    spec fn found_by(self, map: Hypermap<bool>, t: Tile, k: int) -> bool {
        &&& 0 <= k < self.done@.len()
        &&& tile_step(map)(self.done@[k], t)
        &&& self.steps(t) == self.steps(self.done@[k]) + 1
        &&& forall|i: int|
            0 <= i < k && tile_step(map)(#[trigger] self.done@[i], t) ==> self.steps(self.done@[i])
                >= self.steps(t)
    }

    /// A discovered tile other than the start was reached from the expanded tile that was
    /// the first to hand it its step count.
    #[verifier::opaque]
    spec fn parent_ok(self, map: Hypermap<bool>, t: Tile) -> bool {
        t == self.start || {
            &&& self.came_from@.contains_key(tile_key(t) as u64)
            &&& exists|k: int| #[trigger]
                self.found_by(map, t, k) && self.came_from@[tile_key(t) as u64] == self.done@[k]
        }
    }

    /// What stays of a tile's parent when the expanded tiles and their step counts stay.
    proof fn lemma_parent_kept(self, after: Self, map: Hypermap<bool>, t: Tile)
        requires
            self.parent_ok(map, t),
            self.done@.is_prefix_of(after.done@),
            after.start == self.start,
            after.steps(t) == self.steps(t),
            self.came_from@.contains_key(tile_key(t) as u64) ==> after.came_from@.contains_key(
                tile_key(t) as u64,
            ) && after.came_from@[tile_key(t) as u64] == self.came_from@[tile_key(t) as u64],
            forall|i: int|
                0 <= i < self.done@.len() ==> after.steps(#[trigger] self.done@[i]) == self.steps(
                    self.done@[i],
                ),
        ensures
            after.parent_ok(map, t),
    {
        reveal(Search::parent_ok);
        if t != self.start {
            let k = choose|k: int| #[trigger]
                self.found_by(map, t, k) && self.came_from@[tile_key(t) as u64] == self.done@[k];
            assert(forall|i: int|
                0 <= i < self.done@.len() ==> self.done@[i] == #[trigger] after.done@[i]);
            assert(after.found_by(map, t, k));
        }
    }

    /// The expanded tiles follow the course of a best-first search.
    spec fn course_ok(self, map: Hypermap<bool>) -> bool {
        &&& self.done@.len() > 0 ==> self.done@[0] == self.start
        &&& forall|j: int| 0 < j < self.done@.len() ==> #[trigger] led_to(map, self.done@, j)
        &&& forall|i: int, j: int, u: Tile|
            #![trigger tile_step(map)(self.done@[i], u), self.done@.take(j).contains(u)]
            0 <= i < j < self.done@.len() && tile_step(map)(self.done@[i], u)
                && !self.done@.take(j).contains(u) ==> goes_first(
                self.start,
                self.aim,
                self.done@[j],
                self.steps(self.done@[j]),
                u,
                self.steps(self.done@[i]) + 1,
            )
    }

    proof fn lemma_course_kept(self, after: Self, map: Hypermap<bool>)
        requires
            self.course_ok(map),
            after.done == self.done,
            after.start == self.start,
            after.aim == self.aim,
            forall|i: int|
                0 <= i < self.done@.len() ==> after.steps(#[trigger] self.done@[i]) == self.steps(
                    self.done@[i],
                ),
        ensures
            after.course_ok(map),
    {
        assert forall|i: int, j: int, u: Tile|
            #![trigger tile_step(map)(after.done@[i], u), after.done@.take(j).contains(u)]
            0 <= i < j < after.done@.len() && tile_step(map)(after.done@[i], u)
                && !after.done@.take(j).contains(u) implies goes_first(
            after.start,
            after.aim,
            after.done@[j],
            after.steps(after.done@[j]),
            u,
            after.steps(after.done@[i]) + 1,
        ) by {
            assert(tile_step(map)(self.done@[i], u));
            assert(!self.done@.take(j).contains(u));
            assert(after.steps(self.done@[i]) == self.steps(self.done@[i]));
            assert(after.steps(self.done@[j]) == self.steps(self.done@[j]));
        }
    }

    /// No walk to the tile is shorter than its best known step count.
    pub open spec fn settled(self, map: Hypermap<bool>, t: Tile) -> bool {
        forall|path: Seq<Tile>| #[trigger]
            walks(tile_step(map), self.origin(), t, path) ==> self.steps(t) <= path.len() - 1
    }

    spec fn frontier_ok(self) -> bool {
        &&& self.open.wf()
        &&& forall|e: OpenNode| #[trigger]
            self.open@.contains(e) ==> {
                let t = (e.x, e.y);
                &&& self.knows(t)
                &&& self.steps(t) <= e.steps
                &&& e.steps <= self.done@.len()
                &&& e.rank == rank_of(self.start, self.aim, t, e.steps as int)
                &&& self.open@.count(e) == 1
            }
    }

    spec fn tiles_ok(self, map: Hypermap<bool>) -> bool {
        &&& self.knows(self.start)
        &&& self.steps(self.start) == 0
        &&& forall|t: Tile| #[trigger]
            self.knows(t) ==> {
                &&& self.parent_ok(map, t)
                &&& self.steps(t) <= self.done@.len()
                &&& reaches_within(tile_step(map), self.start, t, self.steps(t))
            }
        &&& self.done@.len() <= usize::MAX
    }

    spec fn done_ok(self, map: Hypermap<bool>) -> bool {
        &&& self.done@.no_duplicates()
        &&& forall|i: int|
            0 <= i < self.done@.len() ==> {
                let t = #[trigger] self.done@[i];
                &&& self.knows(t)
                &&& !self.waiting(t)
                &&& self.settled(map, t)
            }
    }

    /// Without an aim the tiles are expanded in node order.
    spec fn order_ok(self) -> bool {
        self.aim is None ==> {
            &&& forall|e: OpenNode, i: int|
                #![trigger self.open@.contains(e), self.done@[i]]
                self.open@.contains(e) && 0 <= i < self.done@.len() ==> self.node(
                    self.done@[i],
                ).before(e)
            &&& forall|i: int, j: int|
                0 <= i < j < self.done@.len() ==> self.node(#[trigger] self.done@[i]).before(
                    self.node(#[trigger] self.done@[j]),
                )
        }
    }

    /// Every discovered tile waits or is expanded, and an expanded tile has handed
    /// its step count on.
    spec fn split_ok(self, map: Hypermap<bool>) -> bool {
        &&& forall|t: Tile| #[trigger]
            self.knows(t) ==> self.waiting(t) || self.done@.contains(t)
        &&& self.handed_on(map)
    }

    spec fn handed_on(self, map: Hypermap<bool>) -> bool {
        forall|i: int, q: Tile|
            0 <= i < self.done@.len() && #[trigger] tile_step(map)(self.done@[i], q) ==> self.knows(
                q,
            ) && self.steps(q) <= self.steps(self.done@[i]) + 1
    }

    /// The search is between two expansions.
    pub closed spec fn wf(self, map: Hypermap<bool>) -> bool {
        &&& self.frontier_ok()
        &&& self.tiles_ok(map)
        &&& self.done_ok(map)
        &&& self.order_ok()
        &&& self.split_ok(map)
        &&& self.course_ok(map)
    }

    /// The search after tile `t` was taken off the frontier and before it is expanded.
    pub closed spec fn holding(self, map: Hypermap<bool>, t: Tile) -> bool {
        &&& self.frontier_ok()
        &&& self.tiles_ok(map)
        &&& self.done_ok(map)
        &&& self.order_ok()
        &&& self.knows(t)
        &&& !self.waiting(t)
        &&& !self.done@.contains(t)
        &&& self.settled(map, t)
        &&& forall|u: Tile| #[trigger]
            self.knows(u) && u != t ==> self.waiting(u) || self.done@.contains(u)
        &&& self.handed_on(map)
        &&& self.course_ok(map)
        &&& forall|e: OpenNode| #[trigger] self.open@.contains(e) ==> self.node(t).before(e)
        &&& self.aim is None ==> forall|i: int|
            0 <= i < self.done@.len() ==> self.node(#[trigger] self.done@[i]).before(self.node(t))
    }

    fn rank(&self, t: Tile, steps: usize) -> (rank: u128)
        ensures
            rank == rank_of(self.start, self.aim, t, steps as int),
    {
        proof {
            reveal(rank_of);
        }
        match self.aim {
            Some(goal) => {
                let ahead: u64 = wide_manhattan(t, goal);
                let bias: u32 = line_pull_bias(self.start, goal, t);
                STEP_SCALE as u128 * (steps as u128 + ahead as u128) + bias as u128
            },
            None => STEP_SCALE as u128 * steps as u128,
        }
    }

    /// A search that has discovered its start tile and nothing else.
    pub fn new(map: &Hypermap<bool>, start: Tile, aim: Option<Tile>) -> (search: Self)
        requires
            map.wf(),
        ensures
            search.wf(*map),
            search.origin() == start,
            search.target() == aim,
            search.expanded() == Seq::<Tile>::empty(),
    {
        let mut search = Search {
            open: MinHeap::new(),
            best: HashMap::new(),
            came_from: HashMap::new(),
            start,
            aim,
            done: Ghost(Seq::empty()),
        };
        let rank: u128 = search.rank(start, 0);
        search.open.push(OpenNode { rank, steps: 0, x: start.0, y: start.1 });
        search.best.insert(key_of(start), 0);
        proof {
            lemma_reaches_self(tile_step(*map), start);
            reveal(Search::parent_ok);
            lemma_keys_differ();
            assert(search.knows(start));
            assert(search.node(start) == (OpenNode { rank, steps: 0, x: start.0, y: start.1 }));
            assert forall|t: Tile| #[trigger] search.knows(t) implies t == start by {}
        }
        search
    }

    /// Takes the first waiting tile off the frontier, if any tile waits.
    pub fn pop_waiting(&mut self, map: &Hypermap<bool>) -> (next: Option<(Tile, usize)>)
        requires
            map.wf(),
            old(self).wf(*map),
        ensures
            final(self).origin() == old(self).origin(),
            final(self).target() == old(self).target(),
            final(self).expanded() == old(self).expanded(),
            forall|t: Tile| #[trigger] final(self).knows(t) == old(self).knows(t),
            match next {
                Some((t, steps)) => final(self).holding(*map, t) && steps == final(self).steps(t),
                None => final(self).wf(*map) && forall|t: Tile| #[trigger]
                    final(self).knows(t) ==> final(self).expanded().contains(t),
            },
    {
        loop
            invariant
                map.wf(),
                self.wf(*map),
                self.origin() == old(self).origin(),
                self.target() == old(self).target(),
                self.expanded() == old(self).expanded(),
                forall|t: Tile| #[trigger] self.knows(t) == old(self).knows(t),
            decreases self.open@.len(),
        {
            let ghost before = *self;
            match self.open.pop() {
                None => {
                    proof {
                        before.lemma_same_frontier(*self, *map);
                        assert forall|t: Tile| #[trigger] self.knows(t) == before.knows(t) by {}
                        assert forall|t: Tile| #[trigger] self.knows(t) implies self.done@.contains(
                            t,
                        ) by {
                            assert(before.knows(t));
                            assert(!before.waiting(t));
                        }
                    }
                    return None;
                },
                Some(node) => {
                    let t: Tile = (node.x, node.y);
                    let key: u64 = key_of(t);
                    proof {
                        assert(before.open@.contains(node));
                        assert(before.knows(t));
                        assert forall|u: Tile| #[trigger] self.knows(u) == before.knows(u) by {}
                    }
                    let known: usize = *self.best.get(&key).unwrap();
                    if node.steps > known {
                        proof {
                            before.lemma_stale_dropped(*self, *map, node);
                        }
                        continue;
                    }
                    proof {
                        before.lemma_waiting_taken(*self, *map, t);
                    }
                    return Some((t, node.steps));
                },
            }
        }
    }

    spec fn same_tables(self, after: Self) -> bool {
        &&& after.best == self.best
        &&& after.came_from == self.came_from
        &&& after.start == self.start
        &&& after.aim == self.aim
        &&& after.done == self.done
    }

    proof fn lemma_tables_kept(self, after: Self, map: Hypermap<bool>)
        requires
            self.tiles_ok(map),
            self.same_tables(after),
        ensures
            after.tiles_ok(map),
            self.handed_on(map) ==> after.handed_on(map),
            self.course_ok(map) ==> after.course_ok(map),
            forall|t: Tile| #[trigger] after.knows(t) == self.knows(t),
            forall|t: Tile| #[trigger] after.node(t) == self.node(t),
            forall|t: Tile| self.settled(map, t) ==> #[trigger] after.settled(map, t),
    {
        assert forall|t: Tile| self.settled(map, t) implies #[trigger] after.settled(map, t) by {
            assert forall|path: Seq<Tile>| #[trigger]
                walks(tile_step(map), after.origin(), t, path) implies after.steps(t) <= path.len()
                - 1 by {
                assert(walks(tile_step(map), self.origin(), t, path));
            }
        }
        assert forall|t: Tile| #[trigger] after.knows(t) implies after.parent_ok(map, t) by {
            assert(self.knows(t));
            self.lemma_parent_kept(after, map, t);
        }
        if self.course_ok(map) {
            self.lemma_course_kept(after, map);
        }
        assert forall|t: Tile| #[trigger] after.knows(t) == self.knows(t) by {}
        assert forall|t: Tile| #[trigger] after.node(t) == self.node(t) by {}
        if self.handed_on(map) {
            assert forall|i: int, q: Tile|
                0 <= i < after.done@.len() && #[trigger] tile_step(map)(
                    after.done@[i],
                    q,
                ) implies after.knows(q) && after.steps(q) <= after.steps(after.done@[i]) + 1 by {
                assert(tile_step(map)(self.done@[i], q));
            }
        }
    }

    /// Only the layout of the frontier changed.
    proof fn lemma_same_frontier(self, after: Self, map: Hypermap<bool>)
        requires
            self.wf(map),
            self.same_tables(after),
            after.open.wf(),
            after.open@ == self.open@,
        ensures
            after.wf(map),
    {
        self.lemma_tables_kept(after, map);
        assert forall|t: Tile| #[trigger] after.waiting(t) == self.waiting(t) by {
            assert(after.node(t) == self.node(t));
        }
        assert(after.frontier_ok()) by {
            assert forall|e: OpenNode| #[trigger] after.open@.contains(e) implies after.knows(
                (e.x, e.y),
            ) by {
                assert(self.open@.contains(e));
            }
        }
        assert(after.done_ok(map)) by {
            assert forall|i: int| 0 <= i < after.done@.len() implies {
                let u = #[trigger] after.done@[i];
                after.knows(u) && !after.waiting(u) && after.settled(map, u)
            } by {
                let u = self.done@[i];
            }
        }
        assert(after.order_ok());
        assert(after.split_ok(map)) by {
            assert forall|t: Tile| #[trigger] after.knows(t) implies after.waiting(t)
                || after.done@.contains(t) by {
                assert(self.knows(t));
            }
        }
    }

    /// Dropping an entry that a shorter walk has overtaken changes nothing else.
    proof fn lemma_stale_dropped(self, after: Self, map: Hypermap<bool>, node: OpenNode)
        requires
            self.wf(map),
            self.open@.contains(node),
            node.steps > self.steps((node.x, node.y)),
            after.open.wf(),
            after.open@ == self.open@.remove(node),
            self.same_tables(after),
        ensures
            after.wf(map),
    {
        self.lemma_tables_kept(after, map);
        self.lemma_taken_frontier(after, node);
        assert forall|u: Tile| #[trigger] after.waiting(u) == self.waiting(u) by {
            assert(after.node(u) == self.node(u));
            assert(self.node(u) != node);
        }
        assert(after.done_ok(map)) by {
            assert forall|i: int| 0 <= i < after.done@.len() implies {
                let u = #[trigger] after.done@[i];
                after.knows(u) && !after.waiting(u) && after.settled(map, u)
            } by {
                let u = self.done@[i];
            }
        }
        assert(after.order_ok());
        assert(after.split_ok(map)) by {
            assert forall|t: Tile| #[trigger] after.knows(t) implies after.waiting(t)
                || after.done@.contains(t) by {
                assert(self.knows(t));
            }
        }
    }

    /// Taking the first waiting tile leaves every other tile as it was.
    proof fn lemma_waiting_taken(self, after: Self, map: Hypermap<bool>, t: Tile)
        requires
            self.wf(map),
            self.knows(t),
            self.waiting(t),
            forall|e: OpenNode| #[trigger] self.open@.contains(e) ==> self.node(t).at_most(e),
            after.open.wf(),
            after.open@ == self.open@.remove(self.node(t)),
            self.same_tables(after),
        ensures
            after.holding(map, t),
    {
        let node = self.node(t);
        self.lemma_tables_kept(after, map);
        self.lemma_taken_frontier(after, node);
        self.lemma_first_waiting_is_settled(map, t);
        assert(after.settled(map, t));
        assert forall|u: Tile| u != t implies #[trigger] after.waiting(u) == self.waiting(u) by {
            assert(after.node(u) == self.node(u));
            assert(self.node(u) != node);
        }
        assert(after.node(t) == node);
        assert(!after.waiting(t));
        assert(!self.done@.contains(t)) by {
            if self.done@.contains(t) {
                let i = choose|i: int| 0 <= i < self.done@.len() && self.done@[i] == t;
                assert(!self.waiting(self.done@[i]));
            }
        }
        assert(after.done_ok(map)) by {
            assert forall|i: int| 0 <= i < after.done@.len() implies {
                let u = #[trigger] after.done@[i];
                after.knows(u) && !after.waiting(u) && after.settled(map, u)
            } by {
                let u = self.done@[i];
                assert(self.done@.contains(u));
            }
        }
        assert(after.order_ok());
        assert forall|u: Tile| #[trigger] after.knows(u) && u != t implies after.waiting(u)
            || after.done@.contains(u) by {
            assert(self.knows(u));
        }
        assert forall|e: OpenNode| #[trigger] after.open@.contains(e) implies after.node(
            t,
        ).before(e) by {
            assert(self.open@.contains(e));
        }
        if self.aim is None {
            assert forall|i: int| 0 <= i < after.done@.len() implies after.node(
                #[trigger] after.done@[i],
            ).before(after.node(t)) by {
                assert(self.open@.contains(node));
                assert(self.node(self.done@[i]).before(node));
            }
        }
    }

    proof fn lemma_taken_frontier(self, after: Self, node: OpenNode)
        requires
            self.frontier_ok(),
            self.open@.contains(node),
            after.open.wf(),
            after.open@ == self.open@.remove(node),
            self.same_tables(after),
        ensures
            after.frontier_ok(),
            forall|e: OpenNode| #[trigger]
                after.open@.contains(e) ==> self.open@.contains(e) && e != node,
            forall|e: OpenNode|
                e != node ==> #[trigger] after.open@.contains(e) == self.open@.contains(e),
    {
        assert(self.open@.count(node) == 1);
        assert forall|e: OpenNode| #[trigger] after.open@.contains(e) implies self.open@.contains(e)
            && e != node && after.open@.count(e) == 1 by {
            assert(self.open@.count(e) >= 1);
            assert(self.open@.contains(e));
        }
        assert forall|e: OpenNode| e != node implies #[trigger] after.open@.contains(e)
            == self.open@.contains(e) by {
            assert(after.open@.count(e) == self.open@.count(e));
        }
        assert forall|t: Tile| #[trigger] after.knows(t) == self.knows(t) by {}
    }

    /// Of all waiting tiles, the one that comes first has its true distance: were
    /// there a shorter walk to it, some tile on that walk would wait with a lower rank.
    proof fn lemma_first_waiting_is_settled(self, map: Hypermap<bool>, t: Tile)
        requires
            self.wf(map),
            self.knows(t),
            self.waiting(t),
            forall|e: OpenNode| #[trigger] self.open@.contains(e) ==> self.node(t).at_most(e),
        ensures
            self.settled(map, t),
    {
        assert forall|path: Seq<Tile>| #[trigger]
            walks(tile_step(map), self.origin(), t, path) implies self.steps(t) <= path.len()
            - 1 by {
            if self.steps(t) > path.len() - 1 {
                self.lemma_steps_along(map, t, path, path.len() - 1);
            }
        }
    }

    proof fn lemma_steps_along(self, map: Hypermap<bool>, t: Tile, path: Seq<Tile>, i: int)
        requires
            self.wf(map),
            self.knows(t),
            self.waiting(t),
            forall|e: OpenNode| #[trigger] self.open@.contains(e) ==> self.node(t).at_most(e),
            walks(tile_step(map), self.start, t, path),
            0 <= i < path.len(),
            self.steps(t) > path.len() - 1,
        ensures
            self.knows(path[i]),
            self.steps(path[i]) <= i,
        decreases i,
    {
        if i > 0 {
            self.lemma_steps_along(map, t, path, i - 1);
            let u = path[i - 1];
            assert(joined(tile_step(map), path, i - 1));
            if self.waiting(u) {
                let k = path.len() - 1;
                lemma_remaining_along(map, self.aim, path, i - 1, k);
                lemma_rank_window(self.start, self.aim, u, self.steps(u));
                lemma_rank_window(self.start, self.aim, t, self.steps(t));
                assert(self.open@.contains(self.node(u)));
                assert(self.node(t).rank <= self.node(u).rank);
                assert(false);
            }
            let d = choose|d: int| 0 <= d < self.done@.len() && self.done@[d] == u;
            assert(tile_step(map)(self.done@[d], path[i]));
            assert(self.knows(path[i]) && self.steps(path[i]) <= self.steps(self.done@[d]) + 1);
        }
    }

    /// The search while the last expanded tile hands its step count to its neighbours;
    /// `tried` are the neighbours it has reached.
    spec fn expanding(self, map: Hypermap<bool>, tried: Seq<Tile>) -> bool {
        &&& self.frontier_ok()
        &&& self.tiles_ok(map)
        &&& self.done_ok(map)
        &&& self.order_ok()
        &&& self.course_ok(map)
        &&& self.done@.len() > 0
        &&& self.steps(self.done@.last()) < self.done@.len()
        &&& forall|t: Tile| #[trigger] self.knows(t) ==> self.waiting(t) || self.done@.contains(t)
        &&& forall|i: int, q: Tile|
            0 <= i < self.done@.len() - 1 && #[trigger] tile_step(map)(self.done@[i], q)
                ==> self.knows(q) && self.steps(q) <= self.steps(self.done@[i]) + 1
        &&& forall|j: int|
            0 <= j < tried.len() ==> self.knows(#[trigger] tried[j]) && self.steps(tried[j])
                <= self.steps(self.done@.last()) + 1
    }

    /// A tile in hand goes before every tile that an expanded tile hands its step count.
    proof fn lemma_held_goes_first(self, map: Hypermap<bool>, t: Tile, i: int, u: Tile)
        requires
            self.holding(map, t),
            0 <= i < self.done@.len(),
            tile_step(map)(self.done@[i], u),
            !self.done@.contains(u),
        ensures
            goes_first(
                self.start,
                self.aim,
                t,
                self.steps(t),
                u,
                self.steps(self.done@[i]) + 1,
            ),
    {
        let n = self.steps(self.done@[i]) + 1;
        assert(self.knows(u) && self.steps(u) <= n);
        lemma_rank_grows(self.start, self.aim, u, self.steps(u), n);
        if u != t {
            assert(self.waiting(u));
            assert(self.open@.contains(self.node(u)));
            lemma_rank_window(self.start, self.aim, u, self.steps(u));
            lemma_rank_window(self.start, self.aim, t, self.steps(t));
            assert(self.node(t).before(self.node(u)));
        }
    }

    /// The tile in hand was discovered from an expanded tile, unless it is the start.
    proof fn lemma_held_is_led_to(self, map: Hypermap<bool>, t: Tile)
        requires
            self.holding(map, t),
        ensures
            self.done@.len() == 0 ==> t == self.start,
            self.done@.len() > 0 ==> t != self.start && led_to(
                map,
                self.done@.push(t),
                self.done@.len() as int,
            ),
    {
        reveal(Search::parent_ok);
        assert(self.parent_ok(map, t));
        if self.done@.len() > 0 {
            assert(self.done@.contains(self.done@[0]));
        }
        if t != self.start {
            let k = choose|k: int| #[trigger] self.found_by(map, t, k);
            assert(tile_step(map)(self.done@.push(t)[k], t));
        }
    }

    proof fn lemma_course_goes_on(self, after: Self, map: Hypermap<bool>, t: Tile)
        requires
            self.holding(map, t),
            after.best == self.best,
            after.start == self.start,
            after.aim == self.aim,
            after.done@ == self.done@.push(t),
        ensures
            after.course_ok(map),
    {
        let len = self.done@.len() as int;
        self.lemma_held_is_led_to(map, t);
        assert forall|j: int| 0 < j < after.done@.len() implies #[trigger] led_to(
            map,
            after.done@,
            j,
        ) by {
            if j < len {
                assert(led_to(map, self.done@, j));
                let i = choose|i: int|
                    0 <= i < j && tile_step(map)(#[trigger] self.done@[i], self.done@[j]);
                assert(tile_step(map)(after.done@[i], after.done@[j]));
            }
        }
        assert forall|i: int, j: int, u: Tile|
            #![trigger tile_step(map)(after.done@[i], u), after.done@.take(j).contains(u)]
            0 <= i < j < after.done@.len() && tile_step(map)(after.done@[i], u)
                && !after.done@.take(j).contains(u) implies goes_first(
            after.start,
            after.aim,
            after.done@[j],
            after.steps(after.done@[j]),
            u,
            after.steps(after.done@[i]) + 1,
        ) by {
            assert(after.done@.take(j) =~= self.done@.take(j));
            assert(tile_step(map)(self.done@[i], u));
            if j == len {
                assert(self.done@.take(len) =~= self.done@);
                self.lemma_held_goes_first(map, t, i, u);
            } else {
                assert(!self.done@.take(j).contains(u));
            }
        }
    }

    proof fn lemma_expansion_starts(self, after: Self, map: Hypermap<bool>, t: Tile)
        requires
            self.holding(map, t),
            self.done@.len() < usize::MAX,
            after.open == self.open,
            after.best == self.best,
            after.came_from == self.came_from,
            after.start == self.start,
            after.aim == self.aim,
            after.done@ == self.done@.push(t),
        ensures
            after.expanding(map, Seq::empty()),
            after.done@.last() == t,
    {
        assert forall|u: Tile| #[trigger] after.knows(u) == self.knows(u) by {}
        assert forall|u: Tile| #[trigger] after.node(u) == self.node(u) by {}
        assert forall|u: Tile| #[trigger] after.waiting(u) == self.waiting(u) by {}
        assert(after.tiles_ok(map)) by {
            assert forall|u: Tile| #[trigger] after.knows(u) implies after.parent_ok(map, u)
                && after.steps(u) <= after.done@.len() && reaches_within(
                tile_step(map),
                after.start,
                u,
                after.steps(u),
            ) by {
                assert(self.knows(u));
                self.lemma_parent_kept(after, map, u);
            }
        }
        self.lemma_course_goes_on(after, map, t);
        assert(after.frontier_ok()) by {
            assert forall|e: OpenNode| #[trigger] after.open@.contains(e) implies after.knows(
                (e.x, e.y),
            ) && e.steps <= after.done@.len() by {
                assert(self.open@.contains(e));
            }
        }
        assert forall|i: int| 0 <= i < after.done@.len() implies {
            let u = #[trigger] after.done@[i];
            after.knows(u) && !after.waiting(u) && after.settled(map, u)
        } by {
            let u = after.done@[i];
            if i < self.done@.len() {
                assert(self.done@[i] == u);
            }
            assert(self.settled(map, u));
            assert forall|path: Seq<Tile>| #[trigger]
                walks(tile_step(map), after.origin(), u, path) implies after.steps(u) <= path.len()
                - 1 by {
                assert(walks(tile_step(map), self.origin(), u, path));
            }
        }
        assert(after.done@.no_duplicates()) by {
            assert forall|i: int, j: int|
                0 <= i < after.done@.len() && 0 <= j < after.done@.len() && i
                    != j implies after.done@[i] != after.done@[j] by {
                if i == self.done@.len() {
                    assert(self.done@[j] != t) by {
                        assert(self.done@.contains(self.done@[j]));
                    }
                } else if j == self.done@.len() {
                    assert(self.done@[i] != t) by {
                        assert(self.done@.contains(self.done@[i]));
                    }
                }
            }
        }
        assert(after.order_ok()) by {
            if self.aim is None {
                assert forall|e: OpenNode, i: int|
                    #![trigger after.open@.contains(e), after.done@[i]]
                    after.open@.contains(e) && 0 <= i < after.done@.len() implies after.node(
                    after.done@[i],
                ).before(e) by {
                    assert(self.open@.contains(e));
                    if i < self.done@.len() {
                        assert(self.done@[i] == after.done@[i]);
                    }
                }
                assert forall|i: int, j: int| 0 <= i < j < after.done@.len() implies after.node(
                    #[trigger] after.done@[i],
                ).before(after.node(#[trigger] after.done@[j])) by {
                    assert(self.done@[i] == after.done@[i]);
                    if j < self.done@.len() {
                        assert(self.done@[j] == after.done@[j]);
                    }
                }
            }
        }
        assert forall|u: Tile| #[trigger] after.knows(u) implies after.waiting(u)
            || after.done@.contains(u) by {
            assert(self.knows(u));
            if u == t {
                assert(after.done@[self.done@.len() as int] == t);
            } else if !self.waiting(u) {
                let i = choose|i: int| 0 <= i < self.done@.len() && self.done@[i] == u;
                assert(after.done@[i] == u);
            }
        }
        assert forall|i: int, q: Tile|
            0 <= i < after.done@.len() - 1 && #[trigger] tile_step(map)(
                after.done@[i],
                q,
            ) implies after.knows(q) && after.steps(q) <= after.steps(after.done@[i]) + 1 by {
            assert(tile_step(map)(self.done@[i], q));
        }
    }

    proof fn lemma_neighbor_improved(
        self,
        after: Self,
        map: Hypermap<bool>,
        q: Tile,
        ng: usize,
        rank: u128,
        tried: Seq<Tile>,
    )
        requires
            self.expanding(map, tried),
            tile_step(map)(self.done@.last(), q),
            ng == self.steps(self.done@.last()) + 1,
            !self.knows(q) || self.steps(q) > ng,
            rank == rank_of(self.start, self.aim, q, ng as int),
            after.best@ == self.best@.insert(tile_key(q) as u64, ng),
            after.came_from@ == self.came_from@.insert(tile_key(q) as u64, self.done@.last()),
            after.open.wf(),
            after.open@ == self.open@.insert(OpenNode { rank, steps: ng, x: q.0, y: q.1 }),
            after.start == self.start,
            after.aim == self.aim,
            after.done == self.done,
        ensures
            after.expanding(map, tried.push(q)),
    {
        let t = self.done@.last();
        let fresh = OpenNode { rank, steps: ng, x: q.0, y: q.1 };
        lemma_keys_differ();
        assert(self.done@[self.done@.len() - 1] == t);
        assert(self.knows(t));
        lemma_reaches_within_step(tile_step(map), self.start, t, q, self.steps(t));
        assert(!self.done@.contains(q)) by {
            if self.done@.contains(q) {
                let i = choose|i: int| 0 <= i < self.done@.len() && self.done@[i] == q;
                let path = choose|path: Seq<Tile>|
                    walks(tile_step(map), self.start, q, path) && path.len() <= ng + 1;
                assert(self.settled(map, self.done@[i]));
                assert(walks(tile_step(map), self.origin(), q, path));
            }
        }
        assert(q != self.start);
        assert(q != t) by {
            assert(self.done@.contains(t));
        }
        assert(after.knows(q));
        assert(after.steps(q) == ng);
        assert forall|u: Tile| u != q implies #[trigger] after.knows(u) == self.knows(u)
            && after.steps(u) == self.steps(u) && after.node(u) == self.node(u) by {}
        assert(after.node(q) == fresh);
        assert forall|i: int| 0 <= i < self.done@.len() implies after.steps(
            #[trigger] self.done@[i],
        ) == self.steps(self.done@[i]) by {
            assert(self.done@.contains(self.done@[i]));
        }
        assert forall|e: OpenNode| self.open@.contains(e) implies e != fresh by {
            if e == fresh {
                assert(self.knows((e.x, e.y)));
                assert((e.x, e.y) == q);
            }
        }
        assert(!self.open@.contains(fresh));
        assert forall|e: OpenNode| #[trigger] after.open@.contains(e) <==> self.open@.contains(e) || e
            == fresh by {}
        assert(after.frontier_ok()) by {
            assert forall|e: OpenNode| #[trigger] after.open@.contains(e) implies {
                let u = (e.x, e.y);
                &&& after.knows(u)
                &&& after.steps(u) <= e.steps
                &&& e.steps <= after.done@.len()
                &&& e.rank == rank_of(after.start, after.aim, u, e.steps as int)
                &&& after.open@.count(e) == 1
            } by {
                if e != fresh {
                    assert(self.open@.contains(e));
                }
            }
        }
        assert(after.tiles_ok(map)) by {
            assert forall|u: Tile| #[trigger] after.knows(u) implies after.parent_ok(map, u)
                && after.steps(u) <= after.done@.len() && reaches_within(
                tile_step(map),
                after.start,
                u,
                after.steps(u),
            ) by {
                if u != q {
                    assert(self.knows(u));
                    self.lemma_parent_kept(after, map, u);
                } else {
                    reveal(Search::parent_ok);
                    let k = self.done@.len() - 1;
                    assert forall|i: int|
                        0 <= i < k && tile_step(map)(
                            #[trigger] after.done@[i],
                            q,
                        ) implies after.steps(after.done@[i]) >= after.steps(q) by {
                        assert(tile_step(map)(self.done@[i], q));
                        assert(self.done@.contains(self.done@[i]));
                    }
                    assert(after.found_by(map, q, k));
                }
            }
        }
        self.lemma_course_kept(after, map);
        assert forall|u: Tile| u != q implies #[trigger] after.waiting(u) == self.waiting(u) by {
            assert(after.node(u) == self.node(u));
        }
        assert(after.waiting(q));
        assert(after.done_ok(map)) by {
            assert forall|i: int| 0 <= i < after.done@.len() implies {
                let u = #[trigger] after.done@[i];
                after.knows(u) && !after.waiting(u) && after.settled(map, u)
            } by {
                let u = self.done@[i];
                assert(self.done@.contains(u));
                assert(self.settled(map, u));
                assert forall|path: Seq<Tile>| #[trigger]
                    walks(tile_step(map), after.origin(), u, path) implies after.steps(u)
                    <= path.len() - 1 by {
                    assert(walks(tile_step(map), self.origin(), u, path));
                }
            }
        }
        assert(after.order_ok()) by {
            if self.aim is None {
                assert forall|e: OpenNode, i: int|
                    #![trigger after.open@.contains(e), after.done@[i]]
                    after.open@.contains(e) && 0 <= i < after.done@.len() implies after.node(
                    after.done@[i],
                ).before(e) by {
                    let u = self.done@[i];
                    assert(self.done@.contains(u));
                    if e == fresh {
                        lemma_rank_without_aim(self.start, q, ng as int);
                        lemma_rank_without_aim(self.start, u, self.steps(u));
                        lemma_rank_without_aim(self.start, t, self.steps(t));
                        if i < self.done@.len() - 1 {
                            assert(self.node(self.done@[i]).before(
                                self.node(self.done@[self.done@.len() - 1]),
                            ));
                        }
                    } else {
                        assert(self.open@.contains(e));
                    }
                }
                assert forall|i: int, j: int| 0 <= i < j < after.done@.len() implies after.node(
                    #[trigger] after.done@[i],
                ).before(after.node(#[trigger] after.done@[j])) by {
                    assert(self.done@.contains(self.done@[i]));
                    assert(self.done@.contains(self.done@[j]));
                }
            }
        }
        assert forall|u: Tile| #[trigger] after.knows(u) implies after.waiting(u)
            || after.done@.contains(u) by {
            if u != q {
                assert(self.knows(u));
            }
        }
        assert forall|i: int, r: Tile|
            0 <= i < after.done@.len() - 1 && #[trigger] tile_step(map)(
                after.done@[i],
                r,
            ) implies after.knows(r) && after.steps(r) <= after.steps(after.done@[i]) + 1 by {
            assert(tile_step(map)(self.done@[i], r));
            assert(self.done@.contains(self.done@[i]));
        }
        let longer = tried.push(q);
        assert forall|j: int| 0 <= j < longer.len() implies after.knows(#[trigger] longer[j])
            && after.steps(longer[j]) <= after.steps(after.done@.last()) + 1 by {
            if j < tried.len() {
                assert(self.knows(tried[j]));
            }
        }
    }

    /// Expands the tile that was taken off the frontier: every neighbour one step away
    /// that this shortens the way to joins the frontier.
    pub fn expand(&mut self, map: &Hypermap<bool>, t: Tile, steps: usize)
        requires
            map.wf(),
            old(self).holding(*map, t),
            steps == old(self).steps(t),
            old(self).expanded().len() < usize::MAX,
        ensures
            final(self).wf(*map),
            final(self).origin() == old(self).origin(),
            final(self).target() == old(self).target(),
            final(self).expanded() == old(self).expanded().push(t),
    {
        let ghost before = *self;
        let near: Vec<Tile> = hypermap_successors(map, t);
        proof {
            self.done@ = self.done@.push(t);
            before.lemma_expansion_starts(*self, *map, t);
        }
        assert(near@.take(0) =~= Seq::empty());
        let mut k: usize = 0;
        while k < near.len()
            invariant
                map.wf(),
                k <= near@.len(),
                self.expanding(*map, near@.take(k as int)),
                self.done@ == before.done@.push(t),
                self.start == before.start,
                self.aim == before.aim,
                steps == self.steps(t),
                steps < usize::MAX,
                forall|q: Tile| near@.contains(q) <==> #[trigger] tile_step(*map)(t, q),
            decreases near@.len() - k,
        {
            let q: Tile = near[k];
            assert(near@.contains(q));
            let key: u64 = key_of(q);
            let ng: usize = steps + 1;
            let better: bool = match self.best.get(&key) {
                None => true,
                Some(old_steps) => ng < *old_steps,
            };
            let ghost prior = *self;
            let ghost tried = near@.take(k as int);
            assert(near@.take(k + 1) =~= tried.push(q));
            assert(self.done@.last() == t);
            if better {
                let rank: u128 = self.rank(q, ng);
                self.best.insert(key, ng);
                self.came_from.insert(key, t);
                self.open.push(OpenNode { rank, steps: ng, x: q.0, y: q.1 });
                proof {
                    prior.lemma_neighbor_improved(*self, *map, q, ng, rank, tried);
                    lemma_keys_differ();
                    assert(q != t);
                }
            } else {
                proof {
                    assert(self.knows(q) && self.steps(q) <= ng);
                    assert(self.expanding(*map, tried.push(q)));
                }
            }
            k += 1;
        }
        proof {
            assert(near@.take(near@.len() as int) =~= near@);
            assert(self.handed_on(*map)) by {
                assert forall|i: int, q: Tile|
                    0 <= i < self.done@.len() && #[trigger] tile_step(*map)(
                        self.done@[i],
                        q,
                    ) implies self.knows(q) && self.steps(q) <= self.steps(self.done@[i]) + 1 by {
                    if i == self.done@.len() - 1 {
                        assert(tile_step(*map)(t, q));
                        assert(near@.contains(q));
                        let j = choose|j: int| 0 <= j < near@.len() && near@[j] == q;
                        assert(self.knows(near@[j]));
                    }
                }
            }
        }
    }

    proof fn lemma_settled_distance(self, map: Hypermap<bool>, t: Tile)
        requires
            self.settled(map, t),
            reaches_within(tile_step(map), self.start, t, self.steps(t)),
        ensures
            distance_is(map, self.start, t, self.steps(t)),
    {
        assert forall|path: Seq<Tile>| #[trigger]
            walks(tile_step(map), self.start, t, path) implies self.steps(t) <= path.len() - 1 by {
            assert(walks(tile_step(map), self.origin(), t, path));
        }
    }

    /// Whether `t` was discovered from the expanded tile `p`.
    spec fn comes_from(self, map: Hypermap<bool>, p: Tile, t: Tile) -> bool {
        exists|k: int| #[trigger] self.found_by(map, t, k) && p == self.done@[k]
    }

    /// The walk along which the tile was discovered, start first.
    pub fn trace_back(&self, map: &Hypermap<bool>, goal: Tile) -> (path: Vec<Tile>)
        requires
            self.holding(*map, goal),
        ensures
            walks(tile_step(*map), self.origin(), goal, path@),
            path@.len() == self.steps(goal) + 1,
            traced(*map, self.origin(), self.expanded().push(goal), path@),
    {
        let mut back: Vec<Tile> = Vec::new();
        back.push(goal);
        let mut cur: Tile = goal;
        while cur.0 != self.start.0 || cur.1 != self.start.1
            invariant
                self.tiles_ok(*map),
                self.done_ok(*map),
                self.knows(cur),
                back@.len() > 0,
                back@[0] == goal,
                back@.last() == cur,
                forall|i: int|
                    0 <= i < back@.len() ==> self.steps(#[trigger] back@[i]) + i == self.steps(
                        goal,
                    ),
                forall|i: int|
                    0 <= i < back@.len() - 1 ==> self.comes_from(
                        *map,
                        #[trigger] back@[i + 1],
                        back@[i],
                    ),
            decreases self.steps(cur),
        {
            proof {
                assert(self.parent_ok(*map, cur));
                reveal(Search::parent_ok);
            }
            let key: u64 = key_of(cur);
            let p: Tile = *self.came_from.get(&key).unwrap();
            let ghost prior = back@;
            back.push(p);
            proof {
                let k = choose|k: int| #[trigger]
                    self.found_by(*map, cur, k) && p == self.done@[k];
                assert(self.knows(self.done@[k]));
                assert(self.steps(prior[prior.len() - 1]) + (prior.len() - 1) == self.steps(goal));
                assert forall|i: int| 0 <= i < back@.len() - 1 implies self.comes_from(
                    *map,
                    #[trigger] back@[i + 1],
                    back@[i],
                ) by {
                    if i < prior.len() - 1 {
                        assert(self.comes_from(*map, prior[i + 1], prior[i]));
                    }
                }
            }
            cur = p;
        }
        let path = reversed(&back);
        proof {
            let last = back@.len() - 1;
            assert(self.steps(back@[last]) + last == self.steps(goal));
            assert forall|i: int| 0 <= i < path@.len() - 1 implies #[trigger] joined(
                tile_step(*map),
                path@,
                i,
            ) by {
                let j = back@.len() - 2 - i;
                assert(self.comes_from(*map, back@[j + 1], back@[j]));
            }
            let seen = self.done@.push(goal);
            assert forall|j: int| 0 <= j < path@.len() - 1 implies #[trigger] led_first(
                *map,
                self.start,
                seen,
                path@,
                j,
            ) by {
                let b = back@.len() - 2 - j;
                assert(self.comes_from(*map, back@[b + 1], back@[b]));
                assert(path@[j] == back@[b + 1] && path@[j + 1] == back@[b]);
                assert(self.steps(back@[b]) + b == self.steps(goal));
                let k = choose|k: int| #[trigger]
                    self.found_by(*map, path@[j + 1], k) && path@[j] == self.done@[k];
                assert(seen[k] == path@[j]);
                assert forall|i: int|
                    0 <= i < k && tile_step(*map)(
                        #[trigger] seen[i],
                        path@[j + 1],
                    ) implies !distance_is(*map, self.start, seen[i], j) by {
                    let a = self.done@[i];
                    assert(self.steps(a) >= self.steps(path@[j + 1]));
                    assert(self.knows(a) && self.settled(*map, a));
                    self.lemma_settled_distance(*map, a);
                    if distance_is(*map, self.start, a, j) {
                        lemma_distance_unique(*map, self.start, a, j, self.steps(a));
                    }
                }
            }
        }
        path
    }

    /// The expanded tiles and the tile in hand are the course of the search.
    pub proof fn held_tile_ends_the_course(self, map: Hypermap<bool>, t: Tile)
        requires
            self.holding(map, t),
        ensures
            course(map, self.origin(), self.target(), self.expanded().push(t)),
    {
        let seen = self.done@.push(t);
        let after = Search { done: Ghost(seen), ..self };
        self.lemma_course_goes_on(after, map, t);
        assert(seen.no_duplicates()) by {
            assert forall|i: int, j: int|
                0 <= i < seen.len() && 0 <= j < seen.len() && i != j implies seen[i] != seen[j] by {
                if i == seen.len() - 1 {
                    assert(self.done@.contains(seen[j]));
                }
                if j == seen.len() - 1 {
                    assert(self.done@.contains(seen[i]));
                }
            }
        }
        if seen.len() == 1 {
            self.lemma_held_is_led_to(map, t);
        }
        assert forall|i: int| 0 <= i < seen.len() implies after.knows(seen[i]) && after.settled(
            map,
            #[trigger] seen[i],
        ) by {
            let u = seen[i];
            if i < self.done@.len() {
                assert(u == self.done@[i]);
            }
            assert(self.knows(u) && self.settled(map, u));
            assert forall|path: Seq<Tile>| #[trigger]
                walks(tile_step(map), after.origin(), u, path) implies after.steps(u) <= path.len()
                - 1 by {
                assert(walks(tile_step(map), self.origin(), u, path));
            }
        }
        assert forall|u: Tile| #[trigger] after.knows(u) implies reaches_within(
            tile_step(map),
            after.start,
            u,
            after.steps(u),
        ) by {
            assert(self.knows(u));
        }
        after.lemma_course_of_settled(map);
    }

    /// The expanded tiles are the course of the search.
    pub proof fn expanded_tiles_are_the_course(self, map: Hypermap<bool>)
        requires
            self.wf(map),
        ensures
            course(map, self.origin(), self.target(), self.expanded()),
    {
        self.lemma_course_of_settled(map);
    }

    proof fn lemma_course_of_settled(self, map: Hypermap<bool>)
        requires
            self.course_ok(map),
            self.done@.no_duplicates(),
            forall|i: int|
                0 <= i < self.done@.len() ==> self.knows(self.done@[i]) && self.settled(
                    map,
                    #[trigger] self.done@[i],
                ),
            forall|u: Tile| #[trigger]
                self.knows(u) ==> reaches_within(tile_step(map), self.start, u, self.steps(u)),
        ensures
            course(map, self.start, self.aim, self.done@),
    {
        let seen = self.done@;
        let start = self.start;
        assert forall|i: int, j: int, u: Tile, m: int, n: int|
            #![trigger tile_step(map)(seen[i], u), seen.take(j).contains(u), distance_is(map, start, seen[i], m), distance_is(map, start, seen[j], n)]
            0 <= i < j < seen.len() && tile_step(map)(seen[i], u) && !seen.take(j).contains(u)
                && distance_is(map, start, seen[i], m) && distance_is(
                map,
                start,
                seen[j],
                n,
            ) implies goes_first(start, self.aim, seen[j], n, u, m + 1) by {
            assert(self.knows(seen[i]) && self.settled(map, seen[i]));
            assert(self.knows(seen[j]) && self.settled(map, seen[j]));
            self.lemma_settled_distance(map, seen[i]);
            self.lemma_settled_distance(map, seen[j]);
            lemma_distance_unique(map, start, seen[i], m, self.steps(seen[i]));
            lemma_distance_unique(map, start, seen[j], n, self.steps(seen[j]));
            assert(tile_step(map)(self.done@[i], u));
            assert(!self.done@.take(j).contains(u));
        }
    }

    /// A tile that is taken off the frontier before the goal lies on a way to the goal that is
    /// estimated to be no longer than any walk there.
    pub proof fn held_tile_is_on_the_way(self, map: Hypermap<bool>, t: Tile, goal: Tile, d: int)
        requires
            self.holding(map, t),
            self.target() == Some(goal),
            !self.expanded().contains(goal),
            reaches_within(tile_step(map), self.origin(), goal, d),
        ensures
            self.steps(t) + tile_distance(t, goal) <= d,
    {
        let path = choose|path: Seq<Tile>|
            walks(tile_step(map), self.start, goal, path) && path.len() <= d + 1;
        let at = self.lemma_edge_on_walk(map, t, path, 0);
        let u = path[at];
        lemma_remaining_along(map, self.aim, path, at, path.len() - 1);
        lemma_rank_window(self.start, self.aim, u, self.steps(u));
        lemma_rank_window(self.start, self.aim, t, self.steps(t));
        if u != t {
            assert(self.waiting(u));
            assert(self.open@.contains(self.node(u)));
            assert(self.node(t).before(self.node(u)));
        }
    }

    /// What the tiles between two expansions are worth: each expanded tile was reached
    /// by a walk and by none that is shorter, and it was expanded once.
    pub proof fn expanded_tiles_are_settled(self, map: Hypermap<bool>)
        requires
            self.wf(map),
        ensures
            self.knows(self.origin()),
            self.expanded().no_duplicates(),
            forall|t: Tile| #[trigger] self.expanded().contains(t) ==> self.knows(t) && self.settled(map, t),
            forall|t: Tile| #[trigger] self.knows(t) ==> reaches_within(
                tile_step(map),
                self.origin(),
                t,
                self.steps(t),
            ),
            forall|t: Tile, q: Tile| self.expanded().contains(t) && #[trigger] tile_step(map)(t, q) ==> self.knows(
                q,
            ),
            self.target() is None ==> forall|i: int, j: int|
                0 <= i < j < self.expanded().len() ==> {
                    let a = #[trigger] self.expanded()[i];
                    let b = #[trigger] self.expanded()[j];
                    earlier(self.steps(a), a, self.steps(b), b)
                },
    {
        assert forall|t: Tile, q: Tile| self.expanded().contains(t) && #[trigger] tile_step(map)(
            t,
            q,
        ) implies self.knows(q) by {
            let i = choose|i: int| 0 <= i < self.done@.len() && self.done@[i] == t;
            assert(tile_step(map)(self.done@[i], q));
        }
        if self.target() is None {
            assert forall|i: int, j: int| 0 <= i < j < self.expanded().len() implies {
                let a = #[trigger] self.expanded()[i];
                let b = #[trigger] self.expanded()[j];
                earlier(self.steps(a), a, self.steps(b), b)
            } by {
                let a = self.done@[i];
                let b = self.done@[j];
                assert(self.node(a).before(self.node(b)));
                lemma_rank_without_aim(self.start, a, self.steps(a));
                lemma_rank_without_aim(self.start, b, self.steps(b));
                assert(self.knows(a) && self.knows(b));
            }
        }
    }

    /// The same of the tile that was taken off the frontier and is not expanded yet.
    pub proof fn held_tile_is_settled(self, map: Hypermap<bool>, t: Tile)
        requires
            self.holding(map, t),
        ensures
            self.knows(t),
            self.settled(map, t),
            !self.expanded().contains(t),
            self.expanded().no_duplicates(),
            forall|u: Tile| #[trigger] self.expanded().contains(u) ==> self.knows(u) && self.settled(map, u),
            forall|u: Tile| #[trigger] self.knows(u) ==> reaches_within(
                tile_step(map),
                self.origin(),
                u,
                self.steps(u),
            ),
            self.target() is None ==> forall|i: int|
                0 <= i < self.expanded().len() ==> {
                    let a = #[trigger] self.expanded()[i];
                    earlier(self.steps(a), a, self.steps(t), t)
                },
    {
        if self.target() is None {
            assert forall|i: int| 0 <= i < self.expanded().len() implies {
                let a = #[trigger] self.expanded()[i];
                earlier(self.steps(a), a, self.steps(t), t)
            } by {
                let a = self.done@[i];
                assert(self.node(a).before(self.node(t)));
                lemma_rank_without_aim(self.start, a, self.steps(a));
                lemma_rank_without_aim(self.start, t, self.steps(t));
                assert(self.knows(a));
            }
        }
    }

    /// Along a walk to a tile that is not expanded, some discovered tile is not expanded
    /// and is no farther from the start than its place on the walk.
    proof fn lemma_edge_on_walk(self, map: Hypermap<bool>, held: Tile, path: Seq<Tile>, k: int) -> (at: int)
        requires
            self.holding(map, held),
            is_walk(tile_step(map), path),
            0 <= k < path.len(),
            self.knows(path[k]),
            self.steps(path[k]) <= k,
            !self.done@.contains(path.last()),
        ensures
            k <= at < path.len(),
            self.knows(path[at]),
            self.steps(path[at]) <= at,
            !self.done@.contains(path[at]),
        decreases path.len() - k,
    {
        if self.done@.contains(path[k]) {
            let d = choose|d: int| 0 <= d < self.done@.len() && self.done@[d] == path[k];
            assert(joined(tile_step(map), path, k));
            assert(tile_step(map)(self.done@[d], path[k + 1]));
            self.lemma_edge_on_walk(map, held, path, k + 1)
        } else {
            k
        }
    }

    /// Without an aim, a reachable tile that is not expanded yet comes after every
    /// expanded tile.
    pub proof fn unexpanded_tiles_come_later(
        self,
        map: Hypermap<bool>,
        held: Tile,
        t: Tile,
        n: int,
    )
        requires
            self.holding(map, held),
            self.target() is None,
            !self.expanded().contains(t),
            reaches_within(tile_step(map), self.origin(), t, n),
            forall|path: Seq<Tile>| #[trigger]
                walks(tile_step(map), self.origin(), t, path) ==> n <= path.len() - 1,
        ensures
            forall|i: int|
                0 <= i < self.expanded().len() ==> {
                    let a = #[trigger] self.expanded()[i];
                    earlier(self.steps(a), a, n, t)
                },
    {
        let path = choose|path: Seq<Tile>|
            walks(tile_step(map), self.start, t, path) && path.len() <= n + 1;
        assert(walks(tile_step(map), self.origin(), t, path));
        let at = self.lemma_edge_on_walk(map, held, path, 0);
        let u = path[at];
        let walk = choose|walk: Seq<Tile>|
            walks(tile_step(map), self.start, u, walk) && walk.len() <= self.steps(u) + 1;
        if at == path.len() - 1 {
            assert(u == t);
            assert(walks(tile_step(map), self.origin(), t, walk));
        }
        assert forall|i: int| 0 <= i < self.expanded().len() implies {
            let a = #[trigger] self.expanded()[i];
            earlier(self.steps(a), a, n, t)
        } by {
            let a = self.done@[i];
            assert(self.node(a).before(self.node(u))) by {
                if u != held {
                    assert(self.waiting(u));
                    assert(self.open@.contains(self.node(u)));
                }
            }
            lemma_rank_without_aim(self.start, a, self.steps(a));
            lemma_rank_without_aim(self.start, u, self.steps(u));
            assert(self.knows(a));
        }
    }
}

/// Expansion order without an aim: by step count, then by coordinates.
pub open spec fn earlier(steps_a: int, a: Tile, steps_b: int, b: Tile) -> bool {
    steps_a < steps_b || (steps_a == steps_b && (a.0 < b.0 || (a.0 == b.0 && a.1 < b.1)))
}

fn reversed(tiles: &Vec<Tile>) -> (out: Vec<Tile>)
    ensures
        out@ == tiles@.reverse(),
{
    let mut out: Vec<Tile> = Vec::with_capacity(tiles.len());
    let mut i: usize = tiles.len();
    while i > 0
        invariant
            i <= tiles@.len(),
            out@.len() == tiles@.len() - i,
            forall|k: int| 0 <= k < out@.len() ==> out@[k] == tiles@[tiles@.len() - 1 - k],
        decreases i,
    {
        i -= 1;
        out.push(tiles[i]);
    }
    assert(out@ =~= tiles@.reverse());
    out
}

proof fn lemma_keys_differ()
    ensures
        forall|a: Tile, b: Tile|
            a != b ==> #[trigger] tile_key(a) as u64 != #[trigger] tile_key(b) as u64,
{
}

/// The estimate falls by at most one with each step of a walk.
proof fn lemma_remaining_along(
    map: Hypermap<bool>,
    aim: Option<Tile>,
    path: Seq<Tile>,
    i: int,
    j: int,
)
    requires
        is_walk(tile_step(map), path),
        0 <= i <= j < path.len(),
    ensures
        remaining(aim, path[i]) <= remaining(aim, path[j]) + (j - i),
    decreases j - i,
{
    if i < j {
        lemma_remaining_along(map, aim, path, i + 1, j);
        assert(joined(tile_step(map), path, i));
    }
}

} // verus!
