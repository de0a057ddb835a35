//! Shortest walks over graphs of tiles, found by the `pathfinding` crate.
use vstd::prelude::*;

use crate::map::hypermap_pathfind::manhattan;
use crate::map::search::{adjacent, tile_distance, Tile};
use crate::reach::{reaches, reaches_within, walks};

verus! {

/// A graph whose nodes are tiles inside a rectangle and whose edges join tiles that share
/// an edge. It may answer only so many questions for successors.
pub trait TileGraph {
    /// Whether the answers of the graph are those of the step relation.
    spec fn follows(&self, step: spec_fn(Tile, Tile) -> bool) -> bool;

    /// Whether the tile lies inside the rectangle.
    spec fn holds(&self, t: Tile) -> bool;

    /// Number of tiles inside the rectangle, or more.
    spec fn extent(&self) -> int;

    /// Questions that will still be answered; without a number, all of them.
    spec fn allowance(&self) -> Option<nat>;

    spec fn valid(&self) -> bool;

    /// Edges stay inside the rectangle and join neighbours.
    proof fn edges_are_short(&self)
        requires
            self.valid(),
        ensures
            forall|step: spec_fn(Tile, Tile) -> bool, a: Tile, b: Tile|
                #![trigger self.follows(step), step(a, b)]
                self.follows(step) && step(a, b) ==> adjacent(a, b) && self.holds(b),
            forall|a: Tile, b: Tile|
                self.holds(a) && self.holds(b) ==> #[trigger] tile_distance(a, b) < self.extent(),
            self.extent() <= 0x8000_0000,
    ;

    /// The tiles that `t` is joined to, each at cost 1; none once the allowance is used up.
    fn successors(&mut self, t: &(i32, i32)) -> (next: Vec<((i32, i32), u32)>)
        requires
            old(self).valid(),
        ensures
            final(self).valid(),
            final(self).extent() == old(self).extent(),
            forall|a: Tile| #[trigger] final(self).holds(a) == old(self).holds(a),
            forall|step: spec_fn(Tile, Tile) -> bool| #[trigger]
                final(self).follows(step) == old(self).follows(step),
            forall|i: int|
                0 <= i < next@.len() ==> (#[trigger] next@[i]).1 == 1 && adjacent(*t, next@[i].0)
                    && old(self).holds(next@[i].0),
            old(self).allowance() == Some(0nat) ==> next@.len() == 0,
            old(self).allowance() != Some(0nat) ==> forall|step: spec_fn(Tile, Tile) -> bool|
                #[trigger]
                old(self).follows(step) ==> lists(next@, |b: Tile| step(*t, b)),
            match old(self).allowance() {
                None => final(self).allowance() is None,
                Some(n) => final(self).allowance() == Some(
                    if n == 0 {
                        0nat
                    } else {
                        (n - 1) as nat
                    },
                ),
            },
    ;
}

/// Whether the tiles of `next` are those that satisfy `wanted`.
pub open spec fn lists(next: Seq<((i32, i32), u32)>, wanted: spec_fn(Tile) -> bool) -> bool {
    &&& forall|i: int| 0 <= i < next.len() ==> wanted((#[trigger] next[i]).0)
    &&& forall|b: Tile| #[trigger] wanted(b) ==> next.contains((b, 1u32))
}

/// Whether `t` lies on a way to the goal that is estimated to be no longer than any walk
/// there: some walk to `t` and the Manhattan distance ahead add up to no more.
pub open spec fn on_the_way(
    step: spec_fn(Tile, Tile) -> bool,
    start: Tile,
    goal: Tile,
    t: Tile,
) -> bool {
    exists|g: int| #[trigger]
        reaches_within(step, start, t, g) && forall|d: int| #[trigger]
            reaches_within(step, start, goal, d) ==> g + tile_distance(t, goal) <= d
}

/// Whether a search from `start` may ask for the successors of more tiles than `allowance`
/// before it comes to the goal: one more of them lie on the way.
pub open spec fn outruns(
    step: spec_fn(Tile, Tile) -> bool,
    start: Tile,
    goal: Tile,
    allowance: Option<nat>,
) -> bool {
    match allowance {
        None => false,
        Some(n) => exists|seen: Seq<Tile>| #[trigger] seen.no_duplicates() && seen.len() == n + 1
            && forall|i: int|
                0 <= i < seen.len() ==> #[trigger] seen[i] != goal && on_the_way(
                    step,
                    start,
                    goal,
                    seen[i],
                ),
    }
}

/// What a search over the steps finds that may ask for the successors of `allowance` tiles: a
/// walk from `start` to `goal` that visits no tile twice and is no longer than that allows.
/// Unless the search is outrun, a path is found whenever there is one, and it is a shortest
/// one.
pub open spec fn found_over(
    step: spec_fn(Tile, Tile) -> bool,
    start: Tile,
    goal: Tile,
    allowance: Option<nat>,
    found: Option<Vec<Tile>>,
) -> bool {
    match found {
        Some(path) => {
            &&& walks(step, start, goal, path@)
            &&& path@.no_duplicates()
            &&& match allowance {
                None => true,
                Some(n) => path@.len() <= n + 1,
            }
            &&& outruns(step, start, goal, allowance) || forall|n: int| #[trigger]
                reaches_within(step, start, goal, n) ==> path@.len() <= n + 1
        },
        None => outruns(step, start, goal, allowance) || !reaches(step, start, goal),
    }
}

fn is_goal(t: &(i32, i32), goal: &(i32, i32)) -> (yes: bool)
    ensures
        yes == (*t == *goal),
{
    t.0 == goal.0 && t.1 == goal.1
}

fn distance_to(t: &(i32, i32), goal: &(i32, i32)) -> (d: u32)
    requires
        tile_distance(*t, *goal) <= u32::MAX,
    ensures
        d == tile_distance(*t, *goal),
{
    manhattan(*t, *goal)
}

/// `pathfinding::prelude::astar` on a graph of tiles, with the Manhattan distance to `goal`
/// as its heuristic, for every step relation that the graph's answers follow. A path it returns is a walk from `start` to `goal` that visits no tile
/// twice, each tile but the goal having been asked for its successors. Tiles are asked in the
/// order of the cost so far and the distance ahead, and the goal is not asked. The distance to
/// the goal changes by at most the cost of a step, so each tile is asked at most once, and as
/// long as all answers are complete none for which cost and distance add up to more than a
/// walk to the goal. Unless there are more such tiles than the graph answers for, a path is
/// returned whenever there is one, and it is a shortest one.
#[verifier::external_body]
pub(crate) fn astar_tiles<G: TileGraph>(
    start: (i32, i32),
    goal: (i32, i32),
    graph: G,
) -> (found: Option<Vec<(i32, i32)>>)
    requires
        graph.valid(),
        graph.holds(start),
        graph.holds(goal),
    ensures
        forall|step: spec_fn(Tile, Tile) -> bool| #[trigger]
            graph.follows(step) ==> found_over(step, start, goal, graph.allowance(), found),
{
    let mut graph = graph;
    pathfinding::prelude::astar(
        &start,
        |t| graph.successors(t),
        |t| distance_to(t, &goal),
        |t| is_goal(t, &goal),
    ).map(|(path, _)| path)
}

} // verus!
