//! Pathfinding on the world's static passability and on finite text floors.
//!
//! World-tile pathfinding consumes a `Hypermap<bool>` of static passability (see
//! [`cell_passability`](crate::map::world_map::cell_passability)). 4-neighbor grid (no
//! diagonals), unit step cost.
//!
//! The A* heuristic uses a **line-pull tie-breaker**: among nodes with equal Manhattan
//! distance to the goal, those closest to the straight line from start to goal are expanded
//! first. This produces a Bresenham-like staircase through open space rather than the
//! L-shape that pure Manhattan yields.

use vstd::prelude::*;

use crate::map::hypermap::Hypermap;
use crate::map::search::{
    course, distance_is, earlier, led_first, lemma_distance_unique, tile_distance, tile_step,
    traced, walkable, Search, Tile,
};
use crate::map::world_map::CellType;
use crate::reach::{joined, lemma_closed_set_holds_reachable, reaches, reaches_within, walks};

pub use crate::map::floor_path::{
    astar_subtile_detour, shortest_path_from_ascii_markers, shortest_path_on_floor,
};
pub use crate::map::line_of_sight::{
    is_doorway_tile, line_of_sight, simplify_path_line_of_sight,
};
pub use crate::map::search::world_tile_walkable;

verus! {

/// Stops expanding the open set after this many **pop** operations (tile expansions).
#[derive(Debug, Clone, Copy, PartialEq, Eq, Structural)]
pub struct HypermapSearchLimits {
    pub max_expanded: usize,
}

impl Default for HypermapSearchLimits {
    fn default() -> (limits: Self)
        ensures
            limits.max_expanded == 50_000,
    {
        HypermapSearchLimits { max_expanded: 50_000 }
    }
}

#[derive(Debug, Clone, PartialEq, Eq)]
pub enum HypermapPathResult {
    /// Shortest 4-neighbor path in tile steps (includes start and goal).
    Found { path: Vec<(i32, i32)>, expansions: usize },
    NoPath { expansions: usize },
    /// Search stopped before proving optimality or exhaustively closing the goal component.
    LimitExceeded { expansions: usize },
}

/// Uniform-cost frontier exploration (equivalent to A* with zero heuristic), bounded by
/// [`HypermapSearchLimits`].
#[derive(Debug, Clone, PartialEq, Eq)]
pub enum HypermapExploreResult {
    Visited { tiles: Vec<(i32, i32)>, expansions: usize },
    LimitExceeded { tiles: Vec<(i32, i32)>, expansions: usize },
}

pub fn tile_walkable(cell: CellType) -> (open: bool)
    ensures
        open == (cell is Road),
{
    matches!(cell, CellType::Road)
}

/// Manhattan distance on the tile grid (admissible for 4-neighbors, unit cost).
pub fn manhattan(a: (i32, i32), b: (i32, i32)) -> (d: u32)
    requires
        tile_distance(a, b) <= u32::MAX,
    ensures
        d == tile_distance(a, b),
{
    let dx: i64 = a.0 as i64 - b.0 as i64;
    let dy: i64 = a.1 as i64 - b.1 as i64;
    let ax: i64 = if dx < 0 { -dx } else { dx };
    let ay: i64 = if dy < 0 { -dy } else { dy };
    (ax + ay) as u32
}

/// Tiles that a follower on `start` can get to, `start` itself among them.
pub open spec fn can_reach(map: Hypermap<bool>, start: Tile, t: Tile) -> bool {
    walkable(map, start) && reaches(tile_step(map), start, t)
}

/// More than `n` tiles can be reached: one more than `n` are listed.
pub open spec fn reach_exceeds(map: Hypermap<bool>, start: Tile, n: int) -> bool {
    exists|tiles: Seq<Tile>|
        #![trigger tiles.no_duplicates()]
        tiles.no_duplicates() && tiles.len() == n + 1 && forall|i: int|
            0 <= i < tiles.len() ==> can_reach(map, start, #[trigger] tiles[i])
}

/// Whether `path` leads from start to goal and no walk does so in fewer steps.
pub open spec fn shortest_path(map: Hypermap<bool>, start: Tile, goal: Tile, path: Seq<Tile>) -> bool {
    &&& walks(tile_step(map), start, goal, path)
    &&& forall|other: Seq<Tile>| #[trigger]
        walks(tile_step(map), start, goal, other) ==> path.len() <= other.len()
}

/// Whether `seen` lists different tiles that can be reached, one per expansion.
pub open spec fn lists_reached(
    map: Hypermap<bool>,
    start: Tile,
    seen: Seq<Tile>,
    expansions: usize,
) -> bool {
    &&& seen.no_duplicates()
    &&& seen.len() == expansions
    &&& forall|i: int| 0 <= i < seen.len() ==> can_reach(map, start, #[trigger] seen[i])
}

/// Whether every tile of `seen` lies on a way to the goal that is estimated to be no longer
/// than any walk there: its distance and the Manhattan distance ahead add up to no more.
pub open spec fn on_the_way(map: Hypermap<bool>, start: Tile, goal: Tile, seen: Seq<Tile>) -> bool {
    forall|i: int, n: int, d: int|
        0 <= i < seen.len() && #[trigger] distance_is(map, start, seen[i], n)
            && #[trigger] reaches_within(tile_step(map), start, goal, d) ==> n + tile_distance(
            seen[i],
            goal,
        ) <= d
}

/// Whether a search towards the goal expanded the tiles of `seen` in this order.
pub open spec fn searched(
    map: Hypermap<bool>,
    start: Tile,
    goal: Tile,
    seen: Seq<Tile>,
    expansions: usize,
) -> bool {
    &&& lists_reached(map, start, seen, expansions)
    &&& course(map, start, Some(goal), seen)
    &&& on_the_way(map, start, goal, seen)
}

/// Whether a search found the path: the goal is the last tile that it expanded, and the path
/// leads back from there through expanded tiles.
pub open spec fn found_by_search(
    map: Hypermap<bool>,
    start: Tile,
    goal: Tile,
    path: Seq<Tile>,
    expansions: usize,
) -> bool {
    &&& path.len() <= expansions
    &&& exists|seen: Seq<Tile>|
        {
            &&& #[trigger] searched(map, start, goal, seen, expansions)
            &&& seen.last() == goal
            &&& traced(map, start, seen, path)
            &&& forall|i: int| 0 <= i < path.len() ==> seen.contains(#[trigger] path[i])
        }
}

/// Whether a search expanded every tile that can be reached.
pub open spec fn searched_all(
    map: Hypermap<bool>,
    start: Tile,
    goal: Tile,
    expansions: usize,
) -> bool {
    exists|seen: Seq<Tile>| #[trigger]
        searched(map, start, goal, seen, expansions) && forall|t: Tile| #[trigger]
            can_reach(map, start, t) ==> seen.contains(t)
}

/// Whether a search took so many tiles off the frontier and none before the last one is the
/// goal.
pub open spec fn searched_in_vain(
    map: Hypermap<bool>,
    start: Tile,
    goal: Tile,
    expansions: usize,
) -> bool {
    exists|seen: Seq<Tile>| #[trigger]
        searched(map, start, goal, seen, expansions) && forall|i: int|
            0 <= i < seen.len() - 1 ==> #[trigger] seen[i] != goal
}

/// A* shortest path on world tile coordinates. Honors [`HypermapSearchLimits::max_expanded`].
///
/// Tiles are expanded by rank, the line pull included. A path is found whenever one exists
/// and the goal is among the first `max_expanded` tiles; it leads back from the goal through
/// the tiles that discovered each other.
pub fn astar_shortest_world_path(
    map: &Hypermap<bool>,
    start: (i32, i32),
    goal: (i32, i32),
    limits: HypermapSearchLimits,
) -> (result: HypermapPathResult)
    requires
        map.wf(),
        limits.max_expanded < usize::MAX,
    ensures
        match result {
            HypermapPathResult::Found { path, expansions } => {
                &&& walkable(*map, start) && walkable(*map, goal)
                &&& shortest_path(*map, start, goal, path@)
                &&& expansions <= limits.max_expanded
                &&& start == goal ==> expansions == 0
                &&& start != goal ==> found_by_search(*map, start, goal, path@, expansions)
            },
            HypermapPathResult::NoPath { expansions } => {
                &&& !(walkable(*map, goal) && can_reach(*map, start, goal))
                &&& expansions <= limits.max_expanded
                &&& if walkable(*map, start) && walkable(*map, goal) {
                    searched_all(*map, start, goal, expansions)
                } else {
                    expansions == 0
                }
            },
            HypermapPathResult::LimitExceeded { expansions } => {
                &&& walkable(*map, start) && walkable(*map, goal) && start != goal
                &&& expansions == limits.max_expanded + 1
                &&& searched_in_vain(*map, start, goal, expansions)
            },
        },
{
    if !world_tile_walkable(map, start.0, start.1) || !world_tile_walkable(map, goal.0, goal.1) {
        return HypermapPathResult::NoPath { expansions: 0 };
    }
    if start.0 == goal.0 && start.1 == goal.1 {
        let mut path: Vec<Tile> = Vec::new();
        path.push(start);
        proof {
            assert(path@ =~= seq![start]);
            assert(walks(tile_step(*map), start, goal, path@));
        }
        return HypermapPathResult::Found { path, expansions: 0 };
    }
    let mut search = Search::new(map, start, Some(goal));
    let mut expansions: usize = 0;
    loop
        invariant
            map.wf(),
            walkable(*map, start),
            walkable(*map, goal),
            start != goal,
            limits.max_expanded < usize::MAX,
            expansions <= limits.max_expanded,
            search.wf(*map),
            search.origin() == start,
            search.target() == Some(goal),
            search.expanded().len() == expansions,
            !search.expanded().contains(goal),
            on_the_way(*map, start, goal, search.expanded()),
        decreases limits.max_expanded - expansions,
    {
        proof {
            search.expanded_tiles_are_settled(*map);
        }
        match search.pop_waiting(map) {
            None => {
                proof {
                    search.expanded_tiles_are_settled(*map);
                    search.expanded_tiles_are_the_course(*map);
                    let inside = |t: Tile| search.knows(t);
                    assert forall|p: Tile, q: Tile| inside(p) && #[trigger] tile_step(*map)(
                        p,
                        q,
                    ) implies inside(q) by {
                        assert(search.knows(p));
                        assert(search.expanded().contains(p));
                    }
                    let seen = search.expanded();
                    assert forall|t: Tile| #[trigger]
                        can_reach(*map, start, t) implies seen.contains(t) by {
                        lemma_closed_set_holds_reachable(tile_step(*map), inside, start, t);
                        assert(search.knows(t));
                    }
                    assert(!can_reach(*map, start, goal));
                    assert forall|i: int| 0 <= i < seen.len() implies can_reach(
                        *map,
                        start,
                        #[trigger] seen[i],
                    ) by {
                        let t = seen[i];
                        assert(search.expanded().contains(t));
                        assert(search.knows(t));
                        assert(reaches_within(tile_step(*map), start, t, search.steps(t)));
                    }
                    assert(searched(*map, start, goal, seen, expansions));
                    assert(searched_all(*map, start, goal, expansions));
                }
                return HypermapPathResult::NoPath { expansions };
            },
            Some((pos, steps)) => {
                let ghost seen = search.expanded().push(pos);
                proof {
                    search.held_tile_is_settled(*map, pos);
                    search.held_tile_ends_the_course(*map, pos);
                    lemma_listed(search, *map, pos);
                    lemma_held_on_the_way(search, *map, pos, goal);
                }
                if expansions >= limits.max_expanded {
                    proof {
                        assert(searched(*map, start, goal, seen, (expansions + 1) as usize));
                        assert forall|i: int| 0 <= i < seen.len() - 1 implies #[trigger] seen[i]
                            != goal by {
                            assert(search.expanded().contains(search.expanded()[i]));
                        }
                        assert(searched_in_vain(*map, start, goal, (expansions + 1) as usize));
                    }
                    return HypermapPathResult::LimitExceeded { expansions: expansions + 1 };
                }
                expansions += 1;
                if pos.0 == goal.0 && pos.1 == goal.1 {
                    let path = search.trace_back(map, goal);
                    proof {
                        assert(searched(*map, start, goal, seen, expansions));
                        assert forall|other: Seq<Tile>| #[trigger]
                            walks(tile_step(*map), start, goal, other) implies path@.len()
                            <= other.len() by {}
                        lemma_path_is_seen(*map, start, goal, seen, path@);
                        assert(found_by_search(*map, start, goal, path@, expansions));
                    }
                    return HypermapPathResult::Found { path, expansions };
                }
                let ghost before = search.expanded();
                search.expand(map, pos, steps);
                assert(!search.expanded().contains(goal)) by {
                    if search.expanded().contains(goal) {
                        let i = choose|i: int|
                            0 <= i < search.expanded().len() && search.expanded()[i] == goal;
                        if i < before.len() {
                            assert(before[i] == goal);
                        }
                    }
                }
            },
        }
    }
}

proof fn lemma_held_on_the_way(search: Search, map: Hypermap<bool>, pos: Tile, goal: Tile)
    requires
        search.holding(map, pos),
        search.target() == Some(goal),
        !search.expanded().contains(goal),
        on_the_way(map, search.origin(), goal, search.expanded()),
    ensures
        on_the_way(map, search.origin(), goal, search.expanded().push(pos)),
{
    let start = search.origin();
    let seen = search.expanded().push(pos);
    search.held_tile_is_settled(map, pos);
    assert forall|i: int, n: int, d: int|
        0 <= i < seen.len() && #[trigger] distance_is(map, start, seen[i], n)
            && #[trigger] reaches_within(tile_step(map), start, goal, d) implies n + tile_distance(
        seen[i],
        goal,
    ) <= d by {
        if i < search.expanded().len() {
            assert(distance_is(map, start, search.expanded()[i], n));
        } else {
            assert(distance_is(map, start, pos, search.steps(pos)));
            lemma_distance_unique(map, start, pos, n, search.steps(pos));
            search.held_tile_is_on_the_way(map, pos, goal, d);
        }
    }
}

/// A shortest path visits no tile twice, so a path through seen tiles is no longer than they
/// are many.
proof fn lemma_path_is_seen(
    map: Hypermap<bool>,
    start: Tile,
    goal: Tile,
    seen: Seq<Tile>,
    path: Seq<Tile>,
)
    requires
        shortest_path(map, start, goal, path),
        traced(map, start, seen, path),
        seen.len() > 0,
        seen.last() == goal,
        seen.no_duplicates(),
    ensures
        forall|i: int| 0 <= i < path.len() ==> seen.contains(#[trigger] path[i]),
        path.len() <= seen.len(),
{
    assert forall|i: int| 0 <= i < path.len() implies seen.contains(#[trigger] path[i]) by {
        if i < path.len() - 1 {
            assert(led_first(map, start, seen, path, i));
        }
    }
    assert(path.no_duplicates()) by {
        assert forall|i: int, j: int| 0 <= i < j < path.len() implies path[i] != path[j] by {
            if path[i] == path[j] {
                let short = path.take(i + 1) + path.skip(j + 1);
                assert forall|k: int| 0 <= k < short.len() - 1 implies #[trigger] joined(
                    tile_step(map),
                    short,
                    k,
                ) by {
                    if k < i {
                        assert(joined(tile_step(map), path, k));
                    } else {
                        assert(joined(tile_step(map), path, k + j - i));
                    }
                }
                assert(walks(tile_step(map), start, goal, short));
            }
        }
    }
    path.unique_seq_to_set();
    seen.unique_seq_to_set();
    assert(path.to_set().subset_of(seen.to_set()));
    vstd::set_lib::lemma_len_subset(path.to_set(), seen.to_set());
}

/// The expanded tiles and the tile in hand are different and can all be reached.
proof fn lemma_listed(search: Search, map: Hypermap<bool>, pos: Tile)
    requires
        search.holding(map, pos),
        walkable(map, search.origin()),
    ensures
        reach_exceeds(map, search.origin(), search.expanded().len() as int),
        search.expanded().push(pos).no_duplicates(),
        forall|i: int|
            0 <= i <= search.expanded().len() ==> can_reach(
                map,
                search.origin(),
                #[trigger] search.expanded().push(pos)[i],
            ),
{
    search.held_tile_is_settled(map, pos);
    let tiles = search.expanded().push(pos);
    assert(tiles.no_duplicates()) by {
        assert forall|i: int, j: int|
            0 <= i < tiles.len() && 0 <= j < tiles.len() && i != j implies tiles[i] != tiles[j] by {
            if i == tiles.len() - 1 {
                assert(search.expanded().contains(tiles[j]));
            }
            if j == tiles.len() - 1 {
                assert(search.expanded().contains(tiles[i]));
            }
        }
    }
    assert forall|i: int| 0 <= i < tiles.len() implies can_reach(
        map,
        search.origin(),
        #[trigger] tiles[i],
    ) by {
        let t = tiles[i];
        if i < tiles.len() - 1 {
            assert(search.expanded().contains(t));
        }
        assert(search.knows(t));
        assert(reaches_within(tile_step(map), search.origin(), t, search.steps(t)));
    }
}

/// Whether the tiles are listed by distance from the start and then by coordinates.
pub open spec fn listed_in_order(map: Hypermap<bool>, start: Tile, tiles: Seq<Tile>) -> bool {
    forall|i: int, j: int, m: int, n: int|
        0 <= i < j < tiles.len() && #[trigger] distance_is(map, start, tiles[i], m)
            && #[trigger] distance_is(map, start, tiles[j], n) ==> earlier(
            m,
            tiles[i],
            n,
            tiles[j],
        )
}

/// Whether `t` would be listed after all of `tiles`.
pub open spec fn comes_after(map: Hypermap<bool>, start: Tile, tiles: Seq<Tile>, t: Tile) -> bool {
    forall|i: int, m: int, n: int|
        0 <= i < tiles.len() && #[trigger] distance_is(map, start, tiles[i], m)
            && #[trigger] distance_is(map, start, t, n) ==> earlier(m, tiles[i], n, t)
}

proof fn lemma_rest_comes_after(search: Search, map: Hypermap<bool>, pos: Tile, t: Tile)
    requires
        search.holding(map, pos),
        search.target() is None,
        !search.expanded().contains(t),
    ensures
        comes_after(map, search.origin(), search.expanded(), t),
{
    search.held_tile_is_settled(map, pos);
    let tiles = search.expanded();
    let start = search.origin();
    assert forall|i: int, m: int, n: int|
        0 <= i < tiles.len() && #[trigger] distance_is(map, start, tiles[i], m)
            && #[trigger] distance_is(map, start, t, n) implies earlier(m, tiles[i], n, t) by {
        let a = tiles[i];
        assert(tiles.contains(a));
        assert(distance_is(map, start, a, search.steps(a)));
        lemma_distance_unique(map, start, a, m, search.steps(a));
        search.unexpanded_tiles_come_later(map, pos, t, n);
        assert(earlier(search.steps(search.expanded()[i]), search.expanded()[i], n, t));
    }
}

proof fn lemma_expanded_in_order(search: Search, map: Hypermap<bool>)
    requires
        search.wf(map),
        search.target() is None,
    ensures
        listed_in_order(map, search.origin(), search.expanded()),
{
    search.expanded_tiles_are_settled(map);
    let tiles = search.expanded();
    let start = search.origin();
    assert forall|i: int, j: int, m: int, n: int|
        0 <= i < j < tiles.len() && #[trigger] distance_is(map, start, tiles[i], m)
            && #[trigger] distance_is(map, start, tiles[j], n) implies earlier(
        m,
        tiles[i],
        n,
        tiles[j],
    ) by {
        let a = tiles[i];
        let b = tiles[j];
        assert(tiles.contains(a) && tiles.contains(b));
        assert(distance_is(map, start, a, search.steps(a)));
        assert(distance_is(map, start, b, search.steps(b)));
        lemma_distance_unique(map, start, a, m, search.steps(a));
        lemma_distance_unique(map, start, b, n, search.steps(b));
        assert(earlier(search.steps(a), a, search.steps(b), b));
    }
}

/// Bounded uniform-cost expansion from `start` (Dijkstra / A* with zero heuristic).
///
/// The tiles come in order of their distance, tiles of one distance by coordinates. All
/// reachable tiles come unless there are more than `max_expanded`.
pub fn explore_walkable_tiles_limited(
    map: &Hypermap<bool>,
    start: (i32, i32),
    limits: HypermapSearchLimits,
) -> (result: HypermapExploreResult)
    requires
        map.wf(),
        limits.max_expanded < usize::MAX,
    ensures
        match result {
            HypermapExploreResult::Visited { tiles, expansions } => {
                &&& tiles@.no_duplicates()
                &&& listed_in_order(*map, start, tiles@)
                &&& forall|t: Tile| tiles@.contains(t) <==> #[trigger] can_reach(*map, start, t)
                &&& expansions == tiles@.len()
                &&& expansions <= limits.max_expanded
            },
            HypermapExploreResult::LimitExceeded { tiles, expansions } => {
                &&& tiles@.no_duplicates()
                &&& listed_in_order(*map, start, tiles@)
                &&& forall|t: Tile| tiles@.contains(t) ==> #[trigger] can_reach(*map, start, t)
                &&& tiles@.len() == limits.max_expanded
                &&& expansions == limits.max_expanded + 1
                &&& reach_exceeds(*map, start, limits.max_expanded as int)
                &&& forall|t: Tile| #[trigger]
                    can_reach(*map, start, t) && !tiles@.contains(t) ==> comes_after(
                        *map,
                        start,
                        tiles@,
                        t,
                    )
            },
        },
{
    if !world_tile_walkable(map, start.0, start.1) {
        return HypermapExploreResult::Visited { tiles: Vec::new(), expansions: 0 };
    }
    let mut search = Search::new(map, start, None);
    let mut visited: Vec<Tile> = Vec::new();
    assert(visited@ =~= Seq::<Tile>::empty());
    loop
        invariant
            map.wf(),
            walkable(*map, start),
            limits.max_expanded < usize::MAX,
            visited@.len() <= limits.max_expanded,
            search.wf(*map),
            search.origin() == start,
            search.target() is None,
            search.expanded() == visited@,
        decreases limits.max_expanded - visited@.len(),
    {
        proof {
            search.expanded_tiles_are_settled(*map);
            lemma_expanded_in_order(search, *map);
            assert forall|t: Tile| visited@.contains(t) implies #[trigger] can_reach(
                *map,
                start,
                t,
            ) by {
                assert(search.knows(t));
                assert(reaches_within(tile_step(*map), start, t, search.steps(t)));
            }
        }
        match search.pop_waiting(map) {
            None => {
                proof {
                    search.expanded_tiles_are_settled(*map);
                    assert forall|t: Tile| #[trigger] can_reach(*map, start, t) implies visited@.contains(
                        t,
                    ) by {
                        let inside = |u: Tile| search.knows(u);
                        assert forall|p: Tile, q: Tile| inside(p) && #[trigger] tile_step(*map)(
                            p,
                            q,
                        ) implies inside(q) by {
                            assert(search.knows(p));
                            assert(search.expanded().contains(p));
                        }
                        lemma_closed_set_holds_reachable(tile_step(*map), inside, start, t);
                        assert(search.knows(t));
                    }
                }
                let expansions: usize = visited.len();
                return HypermapExploreResult::Visited { tiles: visited, expansions };
            },
            Some((pos, steps)) => {
                if visited.len() >= limits.max_expanded {
                    proof {
                        lemma_listed(search, *map, pos);
                        search.held_tile_is_settled(*map, pos);
                        assert forall|t: Tile| #[trigger]
                            can_reach(*map, start, t) && !visited@.contains(t) implies comes_after(
                            *map,
                            start,
                            visited@,
                            t,
                        ) by {
                            lemma_rest_comes_after(search, *map, pos, t);
                        }
                    }
                    let expansions: usize = visited.len() + 1;
                    return HypermapExploreResult::LimitExceeded { tiles: visited, expansions };
                }
                visited.push(pos);
                search.expand(map, pos, steps);
            },
        }
    }
}

} // verus!
