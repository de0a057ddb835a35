//! Path search, line of sight and path simplification.
use std::collections::HashSet;

use everly::map::hypermap::Hypermap;
use everly::map::hypermap_pathfind::{
    astar_shortest_world_path, astar_subtile_detour, explore_walkable_tiles_limited,
    is_doorway_tile, line_of_sight, shortest_path_from_ascii_markers, shortest_path_on_floor,
    simplify_path_line_of_sight, HypermapExploreResult, HypermapPathResult, HypermapSearchLimits,
};
use everly::map::world_map::WorldMapFloor;

#[test]
fn hypermap_pathfind_floor_astar_straight_line() {
    let (floor, markers) = WorldMapFloor::from_ascii_with_path_markers(
        "\
        >A____>B\n\
        ",
    )
    .expect("parse");
    let a = markers.path_a.expect("A");
    let b = markers.path_b.expect("B");
    let path = shortest_path_on_floor(&floor, a, b).expect("path");
    assert_eq!(path.len(), 4);
    assert_eq!(path.first().copied(), Some(a));
    assert_eq!(path.last().copied(), Some(b));
}

#[test]
fn hypermap_pathfind_floor_astar_around_wall() {
    let (floor, markers) = WorldMapFloor::from_ascii_with_path_markers(
        "\
        >Awnwn\n\
        ____>B\n\
        ",
    )
    .expect("parse");
    let path = shortest_path_on_floor(&floor, markers.path_a.unwrap(), markers.path_b.unwrap()).expect("path");
    assert!(
        path.len() > 3,
        "detour along row 1 should beat blocked straight east on row 0"
    );
}

#[test]
fn hypermap_pathfind_hypermap_crosses_chunk_boundary() {
    let mut map: Hypermap<bool> = Hypermap::new(false);
    for x in 0..70 {
        map.set(x, 0, true);
    }
    let r = astar_shortest_world_path(
        &map,
        (0, 0),
        (69, 0),
        HypermapSearchLimits {
            max_expanded: 100_000,
        },
    );
    match r {
        HypermapPathResult::Found { path, .. } => {
            assert_eq!(path.first().copied(), Some((0, 0)));
            assert_eq!(path.last().copied(), Some((69, 0)));
            assert_eq!(path.len(), 70);
        }
        other => panic!("expected Found, got {other:?}"),
    }
}

#[test]
fn hypermap_pathfind_hypermap_limit_triggers() {
    let map: Hypermap<bool> = Hypermap::new(true);
    let r = astar_shortest_world_path(
        &map,
        (0, 0),
        (1000, 0),
        HypermapSearchLimits { max_expanded: 20 },
    );
    assert!(matches!(r, HypermapPathResult::LimitExceeded { .. }));
}

#[test]
fn hypermap_pathfind_shortest_path_from_ascii_markers_helper() {
    let path = shortest_path_from_ascii_markers(">A____>B\n")
        .expect("parse")
        .expect("both markers");
    assert_eq!(path.len(), 4);
}

#[test]
fn simplify_collapses_open_space() {
    let mut map: Hypermap<bool> = Hypermap::new(false);
    for x in 0..10 {
        map.set(x, 0, true);
    }
    let raw = match astar_shortest_world_path(
        &map,
        (0, 0),
        (9, 0),
        HypermapSearchLimits::default(),
    ) {
        HypermapPathResult::Found { path, .. } => path,
        other => panic!("expected Found, got {other:?}"),
    };
    assert_eq!(raw.len(), 10);
    let simplified = simplify_path_line_of_sight(&map, &raw, 0);
    assert_eq!(simplified, vec![(0, 0), (9, 0)]);
}

#[test]
fn simplify_keeps_corner_around_wall() {
    let mut map: Hypermap<bool> = Hypermap::new(false);
    for x in 0..5 {
        map.set(x, 0, true);
    }
    for y in 0..3 {
        map.set(4, y, true);
    }
    for x in 0..5 {
        map.set(x, 2, true);
    }
    let raw = match astar_shortest_world_path(
        &map,
        (0, 0),
        (0, 2),
        HypermapSearchLimits::default(),
    ) {
        HypermapPathResult::Found { path, .. } => path,
        other => panic!("expected Found, got {other:?}"),
    };
    let simplified = simplify_path_line_of_sight(&map, &raw, 0);
    assert_eq!(simplified.first().copied(), Some((0, 0)));
    assert_eq!(simplified.last().copied(), Some((0, 2)));
    assert!(
        simplified.len() >= 3,
        "expected at least one corner waypoint, got {simplified:?}",
    );

    let buffered = simplify_path_line_of_sight(&map, &raw, 1);
    assert!(
        simplified.len() >= 3,
        "corner path must keep at least one bend: {simplified:?}",
    );
    assert!(
        buffered.len() <= simplified.len() + 2,
        "buffered path should not grow much after the second string-pull: {buffered:?}",
    );
    assert!(
        buffered.len() >= 3,
        "buffered path must still bend around the wall: {buffered:?}",
    );
}

#[test]
fn simplify_keeps_straight_approach_through_doorway() {
    // Two open rooms separated by a vertical wall at x = 3 with a single
    // one-tile doorway at (3, 2). Crossing the gap on a diagonal would clip
    // the doorframe, so the straight approach/exit tiles must survive.
    let mut map: Hypermap<bool> = Hypermap::new(false);
    for x in 0..7 {
        for y in 0..5 {
            if x != 3 {
                map.set(x, y, true);
            }
        }
    }
    map.set(3, 2, true); // the doorway

    assert!(is_doorway_tile(&map, 3, 2));
    assert!(!is_doorway_tile(&map, 1, 2), "open-room tile is not a doorway");

    let raw = match astar_shortest_world_path(
        &map,
        (0, 0),
        (6, 4),
        HypermapSearchLimits::default(),
    ) {
        HypermapPathResult::Found { path, .. } => path,
        other => panic!("expected Found, got {other:?}"),
    };
    let simplified = simplify_path_line_of_sight(&map, &raw, 1);
    assert!(
        simplified.contains(&(3, 2)),
        "doorway tile must be a waypoint: {simplified:?}",
    );
    assert!(
        simplified.contains(&(2, 2)) && simplified.contains(&(4, 2)),
        "straight approach/exit tiles around the doorway must survive: {simplified:?}",
    );
}

#[test]
fn simplify_does_not_treat_corridor_as_doorway() {
    // A straight one-wide horizontal corridor: every tile is pinched, but
    // none is a doorway, so open space still collapses to its endpoints.
    let mut map: Hypermap<bool> = Hypermap::new(false);
    for x in 0..10 {
        map.set(x, 0, true);
    }
    assert!(!is_doorway_tile(&map, 5, 0));
    let raw = match astar_shortest_world_path(
        &map,
        (0, 0),
        (9, 0),
        HypermapSearchLimits::default(),
    ) {
        HypermapPathResult::Found { path, .. } => path,
        other => panic!("expected Found, got {other:?}"),
    };
    assert_eq!(simplify_path_line_of_sight(&map, &raw, 1), vec![(0, 0), (9, 0)]);
}

#[test]
fn is_doorway_detects_two_wide_gap() {
    // Two open rooms separated by a vertical wall at x = 3, with a 2-tile doorway
    // at (3, 2) and (3, 3).  Both gap tiles must be identified as doorway tiles.
    //
    //   . . . . . . .
    //   . O O # O O .
    //   . O O . O O .   <- doorway row z=2 (tile 3 open)
    //   . O O . O O .   <- doorway row z=3 (tile 3 open)
    //   . O O # O O .
    //   . . . . . . .
    //
    // All non-wall tiles marked O are open; # = wall (blocked).
    let mut map: Hypermap<bool> = Hypermap::new(false);
    for x in 0..7i32 {
        for y in 0..6i32 {
            if x != 3 {
                map.set(x, y, true);
            }
        }
    }
    // Cut the 2-wide doorway at z=2 and z=3.
    map.set(3, 2, true);
    map.set(3, 3, true);

    assert!(is_doorway_tile(&map, 3, 2), "first gap tile must be a doorway");
    assert!(is_doorway_tile(&map, 3, 3), "second gap tile must be a doorway");
    assert!(!is_doorway_tile(&map, 1, 2), "open-room tile must not be a doorway");
    assert!(!is_doorway_tile(&map, 3, 0), "wall tile must not be a doorway");
}

#[test]
fn does_not_treat_two_wide_corridor_as_doorway() {
    // A straight 2-wide corridor running along x: none of the interior tiles
    // should match as a doorway.
    let mut map: Hypermap<bool> = Hypermap::new(false);
    for x in 0..10i32 {
        map.set(x, 0, true);
        map.set(x, 1, true);
    }
    for x in 1..9 {
        assert!(
            !is_doorway_tile(&map, x, 0),
            "corridor tile ({x},0) must not be a doorway"
        );
        assert!(
            !is_doorway_tile(&map, x, 1),
            "corridor tile ({x},1) must not be a doorway"
        );
    }
}

#[test]
fn simplify_keeps_approach_through_two_wide_doorway() {
    // Same setup as the 1-wide doorway test but with 2 open tiles at x=3.
    let mut map: Hypermap<bool> = Hypermap::new(false);
    for x in 0..7i32 {
        for y in 0..6i32 {
            if x != 3 {
                map.set(x, y, true);
            }
        }
    }
    map.set(3, 2, true);
    map.set(3, 3, true);

    let raw = match astar_shortest_world_path(
        &map,
        (0, 0),
        (6, 5),
        HypermapSearchLimits::default(),
    ) {
        HypermapPathResult::Found { path, .. } => path,
        other => panic!("expected Found, got {other:?}"),
    };
    let simplified = simplify_path_line_of_sight(&map, &raw, 1);
    // At least one doorway tile must remain in the simplified path.
    let has_doorway = simplified.iter().any(|&(x, y)| is_doorway_tile(&map, x, y));
    assert!(has_doorway, "at least one doorway tile must survive simplification: {simplified:?}");
}

#[test]
fn line_of_sight_detects_wall() {
    let mut map: Hypermap<bool> = Hypermap::new(false);
    map.set(0, 0, true);
    map.set(2, 0, true);
    assert!(!line_of_sight(&map, (0, 0), (2, 0)));
    map.set(1, 0, true);
    assert!(line_of_sight(&map, (0, 0), (2, 0)));
}

#[test]
fn line_of_sight_blocks_corner_cut() {
    // Three tiles wrap a solid convex corner at (1, 1).
    let mut map: Hypermap<bool> = Hypermap::new(false);
    map.set(0, 0, true);
    map.set(1, 0, true);
    map.set(0, 1, true);
    // The diagonal (1,0)->(0,1) slips past the solid corner (1,1): a wide
    // follower would clip it, so there is no line of sight.
    assert!(!line_of_sight(&map, (1, 0), (0, 1)));
    // Opening the corner clears both shoulders, so the diagonal is allowed.
    map.set(1, 1, true);
    assert!(line_of_sight(&map, (1, 0), (0, 1)));
}

#[test]
fn simplify_keeps_corner_when_diagonal_would_cut() {
    // An open field with one blocked shoulder tile on the main diagonal.
    // A straight (0,0)->(3,3) line would slip past it, so string-pulling
    // must keep an intermediate waypoint instead of cutting the corner —
    // this is the case where a wide ground bot otherwise wedges on a wall.
    let mut map: Hypermap<bool> = Hypermap::new(false);
    for x in 0..4 {
        for y in 0..4 {
            map.set(x, y, true);
        }
    }
    map.set(2, 1, false); // shoulder of the (1,1)->(2,2) diagonal step

    assert!(
        !line_of_sight(&map, (0, 0), (3, 3)),
        "diagonal must not cut the blocked shoulder",
    );

    let raw = match astar_shortest_world_path(
        &map,
        (0, 0),
        (3, 3),
        HypermapSearchLimits::default(),
    ) {
        HypermapPathResult::Found { path, .. } => path,
        other => panic!("expected Found, got {other:?}"),
    };
    let simplified = simplify_path_line_of_sight(&map, &raw, 0);
    assert_eq!(simplified.first().copied(), Some((0, 0)));
    assert_eq!(simplified.last().copied(), Some((3, 3)));
    assert!(
        simplified.len() >= 3,
        "must keep a corner waypoint rather than cut the diagonal: {simplified:?}",
    );
}

#[test]
fn subtile_detour_routes_around_a_blocked_subtile() {
    // Block a vertical strip of subtiles between start and goal; the detour
    // must step around it rather than straight through.
    let mut blocked: HashSet<(i32, i32)> = HashSet::new();
    for y in -1..=1 {
        blocked.insert((2, y));
    }
    let start = (0, 0);
    let goal = (4, 0);
    let path = astar_subtile_detour(start, goal, 4, 40, 4096, |s| !blocked.contains(&s))
        .expect("a detour exists around the strip");
    assert_eq!(path.first().copied(), Some(start));
    assert_eq!(path.last().copied(), Some(goal));
    assert!(
        path.iter().all(|p| !blocked.contains(p)),
        "detour must avoid every blocked subtile: {path:?}"
    );
    assert!(
        path.iter().any(|p| p.1 != 0),
        "detour must leave the straight line to get around the strip: {path:?}"
    );
}

#[test]
fn subtile_detour_rejects_long_spans() {
    let start = (0, 0);
    let goal = (100, 0);
    assert!(
        astar_subtile_detour(start, goal, 4, 40, 4096, |_| true).is_none(),
        "spans beyond max_span must be rejected as not a short detour"
    );
}

#[test]
fn subtile_detour_none_when_goal_walled_off() {
    // Fully enclose the goal so no footprint-free route reaches it.
    let goal = (4, 0);
    let mut blocked: HashSet<(i32, i32)> = HashSet::new();
    for d in [
        (1, 0),
        (-1, 0),
        (0, 1),
        (0, -1),
    ] {
        blocked.insert((goal.0 + d.0, goal.1 + d.1));
    }
    let start = (0, 0);
    assert!(
        astar_subtile_detour(start, goal, 4, 40, 4096, |s| !blocked.contains(&s)).is_none(),
        "an unreachable goal yields no detour"
    );
}

#[test]
fn hypermap_pathfind_explore_respects_void_default() {
    let mut map: Hypermap<bool> = Hypermap::new(false);
    map.set(0, 0, true);
    map.set(1, 0, true);
    map.set(2, 0, true);
    let r = explore_walkable_tiles_limited(
        &map,
        (0, 0),
        HypermapSearchLimits { max_expanded: 10 },
    );
    match r {
        HypermapExploreResult::Visited { tiles, .. } => {
            assert_eq!(tiles.len(), 3);
        }
        other => panic!("expected Visited, got {other:?}"),
    }
}

#[test]
fn a_failed_search_has_expanded_everything_in_reach() {
    let mut map: Hypermap<bool> = Hypermap::new(false);
    for x in 0..4 {
        map.set(x, 0, true);
    }
    map.set(9, 9, true);
    let limits = HypermapSearchLimits { max_expanded: 100 };
    match astar_shortest_world_path(&map, (0, 0), (9, 9), limits) {
        HypermapPathResult::NoPath { expansions } => assert_eq!(expansions, 4),
        other => panic!("expected NoPath, got {other:?}"),
    }
    match astar_shortest_world_path(&map, (0, 0), (8, 8), limits) {
        HypermapPathResult::NoPath { expansions } => assert_eq!(expansions, 0),
        other => panic!("expected NoPath, got {other:?}"),
    }
    match astar_shortest_world_path(&map, (2, 0), (2, 0), limits) {
        HypermapPathResult::Found { path, expansions } => {
            assert_eq!((path, expansions), (vec![(2, 0)], 0));
        }
        other => panic!("expected Found, got {other:?}"),
    }
}

#[test]
fn the_pull_towards_the_line_keeps_paths_shortest() {
    let map: Hypermap<bool> = Hypermap::new(true);
    let limits = HypermapSearchLimits { max_expanded: 10_000 };
    match astar_shortest_world_path(&map, (0, 0), (6, 6), limits) {
        HypermapPathResult::Found { path, .. } => {
            assert_eq!(path.len(), 13);
            assert!(path.iter().all(|(x, y)| (x - y).abs() <= 1));
        }
        other => panic!("expected Found, got {other:?}"),
    }
}

#[test]
fn a_detour_never_asks_about_its_start() {
    let start = (0, 0);
    let path = astar_subtile_detour(start, (2, 0), 0, 2, 10, |s| {
        assert!(s != start, "the start was asked about");
        true
    });
    assert_eq!(path, Some(vec![(0, 0), (1, 0), (2, 0)]));
}

#[test]
fn a_detour_stops_after_its_expansions() {
    assert_eq!(astar_subtile_detour((0, 0), (1, 0), 0, 1, 0, |_| true), None);
    assert_eq!(
        astar_subtile_detour((0, 0), (1, 0), 0, 1, 1, |_| true),
        Some(vec![(0, 0), (1, 0)])
    );
    assert_eq!(astar_subtile_detour((0, 0), (0, 0), 0, 1, 0, |_| true), Some(vec![(0, 0)]));
}

#[test]
fn a_near_goal_is_found_in_an_endless_world() {
    let map: Hypermap<bool> = Hypermap::new(true);
    let limits = HypermapSearchLimits { max_expanded: 2 };
    assert_eq!(
        astar_shortest_world_path(&map, (0, 0), (1, 0), limits),
        HypermapPathResult::Found { path: vec![(0, 0), (1, 0)], expansions: 2 }
    );
    let limits = HypermapSearchLimits { max_expanded: 1 };
    assert_eq!(
        astar_shortest_world_path(&map, (0, 0), (1, 0), limits),
        HypermapPathResult::LimitExceeded { expansions: 2 }
    );
}

#[test]
fn a_path_in_the_open_is_a_staircase_along_the_line() {
    let map: Hypermap<bool> = Hypermap::new(true);
    let found =
        astar_shortest_world_path(&map, (0, 0), (6, 6), HypermapSearchLimits::default());
    let HypermapPathResult::Found { path, expansions } = found else {
        panic!("the way is open");
    };
    assert_eq!(path.len(), 13);
    assert!(path.iter().all(|p| (p.0 - p.1).abs() <= 1), "{path:?}");
    assert!(path.len() <= expansions);
    assert!(expansions < 49, "the pull keeps the search near the line: {expansions}");
}
