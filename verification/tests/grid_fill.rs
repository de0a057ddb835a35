//! Grid fills and ponds.
use everly::map::map_generator::draft::{DraftTile, MapDraft, Room};
use everly::map::map_generator::grid_fill::{count_region_area, flood_fill_area};
use everly::map::map_generator::house::House;
use everly::map::map_generator::step_ponds::{dig_ponds, pond_overlaps_house};
use everly::map::map_generator::types::MapGeneratorConfig;

#[test]
fn flood_fill_area_counts_connected_component() {
    let grid = [
        ".....",
        ".###.",
        ".#.#.",
        ".###.",
        ".....",
    ];
    let can_fill = |x: i32, z: i32| {
        grid[z as usize]
            .chars()
            .nth(x as usize)
            .is_some_and(|c| c == '#')
    };
    let in_bounds = |x: i32, z: i32| (0..5).contains(&x) && (0..5).contains(&z);
    assert_eq!(flood_fill_area(in_bounds, can_fill, (2, 1)), 8);

    let block = ["###", "#.#", "###"];
    let block_fill = |x: i32, z: i32| block[z as usize].chars().nth(x as usize) == Some('#');
    let block_bounds = |x: i32, z: i32| (0..3).contains(&x) && (0..3).contains(&z);
    assert_eq!(flood_fill_area(block_bounds, block_fill, (0, 0)), 8);
    assert_eq!(flood_fill_area(in_bounds, can_fill, (2, 2)), 0);
}

#[test]
fn count_region_area_counts_all_matching_cells_in_box() {
    let area = count_region_area(0, 0, 4, 4, |x, z| x == 2 || z == 2);
    assert_eq!(area, 9);
}

#[test]
fn pond_rect_rejects_house_overlap() {
    let house = House::from_single_rect(Room {
        x0: 10,
        z0: 10,
        x1: 20,
        z1: 20,
    });
    let houses = [house];
    assert!(pond_overlaps_house((8, 8, 12, 12), &houses));
    assert!(!pond_overlaps_house((0, 0, 5, 5), &houses));
}

#[test]
fn procedural_ponds_are_void_and_avoid_houses() {
    for seed in 0..64u64 {
        let mut draft = MapDraft::new(MapGeneratorConfig {
            seed,
            ..Default::default()
        });
        draft.step_init_carpet();
        draft.step_place_primary_seeds();
        draft.step_separate_primary_seeds();
        draft.step_spawn_subseeds();
        draft.step_grow_rooms();
        draft.step_cluster_houses();
        draft.build_house_structures();
        draft.step_place_ponds();
        let mut pond_cells = 0usize;
        for z in draft.bounds.grow_lo..=draft.bounds.grow_hi {
            for x in draft.bounds.grow_lo..=draft.bounds.grow_hi {
                if draft.get(x, z) != DraftTile::Void {
                    continue;
                }
                if draft.houses.iter().any(|h| h.contains(x, z)) {
                    panic!("seed {seed}: pond void at ({x},{z}) overlaps a house");
                }
                pond_cells += 1;
            }
        }
        let _ = pond_cells;
    }
}

#[test]
fn every_start_of_a_region_counts_the_same() {
    let rows = ["##.#", ".#.#", "##.."];
    let in_bounds = |x: i32, z: i32| (0..4).contains(&x) && (0..3).contains(&z);
    let can_fill = |x: i32, z: i32| rows[z as usize].as_bytes()[x as usize] == b'#';
    for start in [(0, 0), (1, 0), (1, 1), (0, 2), (1, 2)] {
        assert_eq!(flood_fill_area(in_bounds, can_fill, start), 5);
    }
    for start in [(3, 0), (3, 1)] {
        assert_eq!(flood_fill_area(in_bounds, can_fill, start), 2);
    }
    assert_eq!(flood_fill_area(in_bounds, can_fill, (2, 2)), 0);
    assert_eq!(flood_fill_area(in_bounds, can_fill, (4, 0)), 0);
}

fn void_cells(draft: &MapDraft) -> usize {
    draft.cells.iter().flatten().filter(|t| **t == DraftTile::Void).count()
}

#[test]
fn as_many_ponds_are_dug_as_are_wanted() {
    for seed in 0..16u64 {
        let mut draft = MapDraft::new(MapGeneratorConfig { seed, ..Default::default() });
        draft.step_init_carpet();
        let before = void_cells(&draft);
        let (lo, hi) = (draft.bounds.grow_lo, draft.bounds.grow_hi);
        dig_ponds(&mut draft.cells, &draft.houses, lo, hi, 0, &mut draft.rng);
        assert_eq!(void_cells(&draft), before);
        dig_ponds(&mut draft.cells, &draft.houses, lo, hi, 1, &mut draft.rng);
        let one = void_cells(&draft) - before;
        let edge = (4..=16).find(|e| e * e == one);
        assert!(edge.is_some(), "one square pond: {one} cells");
        dig_ponds(&mut draft.cells, &draft.houses, lo, hi, 2, &mut draft.rng);
        let two = void_cells(&draft) - before - one;
        assert!((32..=512).contains(&two), "two more ponds: {two} cells");
    }
}

#[test]
fn no_pond_is_dug_where_none_fits() {
    let mut draft = MapDraft::new(MapGeneratorConfig::default());
    draft.step_init_carpet();
    let before = void_cells(&draft);
    dig_ponds(&mut draft.cells, &draft.houses, 20, 22, 2, &mut draft.rng);
    assert_eq!(void_cells(&draft), before, "the bounds are too narrow");
    dig_ponds(&mut draft.cells, &draft.houses, 0, 127, 0, &mut draft.rng);
    let whole = House::from_single_rect(Room { x0: 0, z0: 0, x1: 127, z1: 127 });
    dig_ponds(&mut draft.cells, &vec![whole], 0, 127, 2, &mut draft.rng);
    assert_eq!(void_cells(&draft), before, "a house stands everywhere");
}
