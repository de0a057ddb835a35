//! Bots on tiles: who stands where, and the dirt and heat that they exchange with the floor.
//! Positions are in thousandths of a tile, dirt in millionths.
use everly::map::cell_occupancy::{
    track_cell_occupancy, ActorReport, BotKinematics, CellOccupancy,
};
use everly::map::field_interactions::{
    actor_main_tile, apply_bot_occupancy_heat_to_tiles, collect_bot_occupied_tiles,
    collect_main_tile_transitions, dirt_exchange, exchange_dirt_with_tile, main_tile_transition,
    ActorPlace, DIRT_TRACK_DEPOSIT,
};
use everly::map::hypermap::Hypermap;
use everly::map::passability::SUBTILE_COUNT;
use everly::map::world_map::CellType;

/// A bot at `center` (radius 2 subtiles, no heading), keyed by its floored main tile.
fn kin(center: (i64, i64)) -> BotKinematics {
    BotKinematics {
        tile: actor_main_tile(center),
        center,
        heading: (0, 0),
        radius_subtiles: 2,
    }
}

#[test]
fn insert_then_query_lists_entities() {
    let mut occ = CellOccupancy::default();
    assert!(occ.update(1, kin((2_500, 3_500))), "new entity is a change");
    assert!(occ.update(2, kin((2_200, 3_200))), "second entity on same tile");
    let here = occ.entities_in((2, 3));
    assert_eq!(here.len(), 2);
    assert!(here.contains(&1) && here.contains(&2));
    assert_eq!(occ.cell_of(1), Some((2, 3)));
    assert_eq!(occ.tracked_len(), 2);
}

#[test]
fn same_cell_refreshes_kinematics_without_a_cell_change() {
    let mut occ = CellOccupancy::default();
    assert!(occ.update(1, kin((500, 500))));
    // Same tile, moved within it + gained a heading: not a cell change, but the
    // kinematics snapshot is updated.
    let mut k = kin((900, 500));
    k.heading = (1_000, 0);
    assert!(!occ.update(1, k), "no tile transition, no cell change");
    assert_eq!(occ.entities_in((0, 0)), &[1]);
    let got = occ.kinematics_of(1).unwrap();
    assert_eq!(got.heading, (1_000, 0));
    assert_eq!(got.center, (900, 500));
}

#[test]
fn move_relocates_and_prunes_empty_cell() {
    let mut occ = CellOccupancy::default();
    occ.update(1, kin((500, 500)));
    assert!(occ.update(1, kin((5_500, 5_500))), "crossing tiles is a change");
    assert!(occ.entities_in((0, 0)).is_empty(), "old cell emptied");
    assert_eq!(occ.entities_in((5, 5)), &[1]);
    assert_eq!(occ.cell_of(1), Some((5, 5)));
    assert!(!occ.keeps_cell((0, 0)));
}

#[test]
fn move_off_shared_cell_keeps_others() {
    let mut occ = CellOccupancy::default();
    occ.update(1, kin((1_500, 1_500)));
    occ.update(2, kin((1_200, 1_200)));
    occ.update(1, kin((2_500, 2_500)));
    assert_eq!(occ.entities_in((1, 1)), &[2], "other occupant stays");
    assert_eq!(occ.entities_in((2, 2)), &[1]);
}

#[test]
fn remove_drops_entity_and_prunes() {
    let mut occ = CellOccupancy::default();
    occ.update(1, kin((3_500, 4_500)));
    occ.remove(1);
    assert!(occ.entities_in((3, 4)).is_empty());
    assert_eq!(occ.cell_of(1), None);
    assert!(occ.is_empty());
    occ.remove(99); // harmless no-op
}

#[test]
fn resolve_blocker_picks_nearest_and_excludes_self() {
    let mut occ = CellOccupancy::default();
    // Two bots near tile (5,5); the blocker subtile sits at the center of (5,5).
    let sc = SUBTILE_COUNT as i32;
    let blocker = (5 * sc + sc / 2, 5 * sc + sc / 2); // about (5.5, 5.5)
    occ.update(1, kin((5_500, 5_500))); // right on it
    occ.update(2, kin((5_500, 6_400))); // a tile up, farther
    let (who, k) = occ.resolve_blocker(blocker, 99).unwrap();
    // Nearest is 1.
    assert_eq!(who, 1);
    assert_eq!(k.center, (5_500, 5_500));
    // Excluding the nearest never returns it again.
    assert!(occ.resolve_blocker(blocker, 1).map_or(true, |(w, _)| w != 1));
}

#[test]
fn resolve_blocker_rejects_out_of_reach_and_handles_empty() {
    let mut occ = CellOccupancy::default();
    let sc = SUBTILE_COUNT as i32;
    let blocker = (5 * sc + sc / 2, 5 * sc + sc / 2);
    // Bot two tiles away: outside (radius+1) reach of the probed subtile.
    occ.update(1, kin((7_500, 7_500)));
    assert!(occ.resolve_blocker(blocker, 99).is_none(), "too far to own the cell");
    assert!(CellOccupancy::default().resolve_blocker(blocker, 99).is_none());
}

#[test]
fn resolve_blocker_finds_owner_in_neighbour_tile() {
    // A bot whose center is in tile (4,5) but whose footprint spills into a
    // blocker subtile that lives in tile (5,5).
    let mut occ = CellOccupancy::default();
    let sc = SUBTILE_COUNT as i32;
    // Bot center near the (4,5)/(5,5) boundary.
    occ.update(1, kin((4_950, 5_500)));
    // Blocker subtile = first column of tile (5,5), same row band.
    let blocker = (5 * sc, 5 * sc + sc / 2);
    let got = occ.resolve_blocker(blocker, 99);
    assert_eq!(got.map(|(_, k)| k.center), Some((4_950, 5_500)));
}

#[test]
fn main_tile_transition_reports_left_tile() {
    let mut stored = Some((1, 2));
    let t = main_tile_transition(&mut stored, (2_200, 2_100)).expect("should transition");
    assert_eq!(t.left_tile, (1, 2));
    assert_eq!(stored, Some((2, 2)));
}

#[test]
fn main_tile_transition_none_on_first_sample() {
    let mut stored = None;
    assert!(main_tile_transition(&mut stored, (200, 200)).is_none());
    assert_eq!(stored, Some((0, 0)));
}

#[test]
fn actor_main_tile_floors_to_containing_tile() {
    assert_eq!(actor_main_tile((1_400, 1_500)), (1, 1));
    assert_eq!(actor_main_tile((1_600, -100)), (1, -1));
}

#[test]
fn dirt_exchange_actor_wipes_onto_cleaner_floor() {
    let (actor, floor_delta) = dirt_exchange(200_000, 500_000);
    assert_eq!(actor, 490_000, "actor loses 1%");
    assert_eq!(floor_delta, DIRT_TRACK_DEPOSIT, "floor gains what actor lost");
}

#[test]
fn dirt_exchange_actor_picks_up_from_dirtier_floor() {
    let (actor, floor_delta) = dirt_exchange(800_000, 300_000);
    assert_eq!(actor, 300_000 + 8_000, "actor gains 1% of floor");
    assert_eq!(floor_delta, 0, "floor unchanged when actor picks up");
}

#[test]
fn dirt_exchange_equal_is_noop() {
    let (actor, floor_delta) = dirt_exchange(400_000, 400_000);
    assert_eq!(actor, 400_000);
    assert_eq!(floor_delta, 0);
}

#[test]
fn dirt_exchange_clean_actor_stays_nonnegative() {
    // floor (0) < actor (0) is false, so a fully-clean actor on clean floor
    // never goes negative; even on a faintly dirty floor it only gains.
    let (actor, floor_delta) = dirt_exchange(0, 0);
    assert_eq!(actor, 0);
    assert_eq!(floor_delta, 0);
    // Tiny actor dirtiness over a clean floor: loss is capped at the actor value.
    let (actor, floor_delta) = dirt_exchange(0, 5_000);
    assert_eq!(actor, 0, "loss capped so actor never goes below zero");
    assert_eq!(floor_delta, 5_000);
}

#[test]
fn dirt_exchange_gain_clamps_to_one() {
    let (actor, _) = dirt_exchange(1_000_000, 999_000);
    assert!(actor <= 1_000_000);
}

#[test]
fn collect_bot_occupied_tiles_dedupes_shared_tile() {
    let tiles = collect_bot_occupied_tiles(&vec![(1_200, 2_800), (1_600, 2_100), (5_000, 5_000)]);
    assert_eq!(tiles.len(), 2);
    assert!(tiles.contains(&(1, 2)));
    assert!(tiles.contains(&(5, 5)));
}

#[test]
fn void_takes_and_gives_no_dirt() {
    assert_eq!(exchange_dirt_with_tile(CellType::Void, 900_000, 100_000), (100_000, 0));
    assert_eq!(exchange_dirt_with_tile(CellType::Road, 0, 100_000), (90_000, 10_000));
}

#[test]
fn only_solid_ground_is_warmed() {
    let mut world: Hypermap<CellType> = Hypermap::new(CellType::Void);
    world.set(1, 1, CellType::Road);
    let warmed = apply_bot_occupancy_heat_to_tiles(&world, &vec![(0, 0), (1, 1)]);
    assert_eq!(warmed, vec![(1, 1)]);
}

#[test]
fn transitions_are_collected_in_order() {
    let mut actors = vec![
        ActorPlace { stored: Some((0, 0)), center: (1_500, 0) },
        ActorPlace { stored: None, center: (-1, 0) },
        ActorPlace { stored: Some((2, 2)), center: (2_999, 2_000) },
        ActorPlace { stored: Some((5, 5)), center: (5_500, -1) },
    ];
    let left: Vec<(i32, i32)> =
        collect_main_tile_transitions(&mut actors).iter().map(|t| t.left_tile).collect();
    assert_eq!(left, vec![(0, 0), (5, 5)]);
    let stored: Vec<Option<(i32, i32)>> = actors.iter().map(|a| a.stored).collect();
    assert_eq!(stored, vec![Some((1, 0)), Some((-1, 0)), Some((2, 2)), Some((5, -1))]);
}

#[test]
fn occupancy_follows_the_actors() {
    let mut occ = CellOccupancy::new();
    occ.update(1, kin((500, 500)));
    occ.update(2, kin((500, 500)));
    let report = ActorReport {
        actor: 2,
        center: (3_200, -100),
        heading: (1_000, 0),
        radius_subtiles: 2,
    };
    track_cell_occupancy(&mut occ, &vec![report], &vec![1]);
    assert_eq!(occ.cell_of(1), None);
    assert_eq!(occ.cell_of(2), Some((3, -1)));
    assert!(occ.entities_in((0, 0)).is_empty());
    assert!(occ.kinematics_of(2).unwrap().is_moving());
}
