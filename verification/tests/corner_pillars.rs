//! Corner pillars from wall layouts.
use std::collections::HashSet;

use everly::map::map_generator::corner_pillars::{
    corner_from_perpendicular_dirs, detect_corner_pillars, CornerPillarPlacement, Dir, WallField,
};
use everly::map::map_generator::draft::MapDraft;
use everly::map::map_generator::types::MapGeneratorConfig;
use everly::map::world_map::{
    CellType, WallCorner, MASK_EAST, MASK_NORTH, MASK_SOUTH, MASK_WEST,
};

fn union_shell_from_rooms(field: &mut WallField, rooms: &[(i32, i32, i32, i32)]) {
    let union = |x: i32, z: i32| {
        rooms
            .iter()
            .any(|&(x0, x1, z0, z1)| x >= x0 && x <= x1 && z >= z0 && z <= z1)
    };
    for z in 0..field.size {
        for x in 0..field.size {
            if !union(x, z) {
                continue;
            }
            let mut bits = 0u8;
            if !union(x, z - 1) {
                bits |= MASK_NORTH;
            }
            if !union(x, z + 1) {
                bits |= MASK_SOUTH;
            }
            if !union(x - 1, z) {
                bits |= MASK_WEST;
            }
            if !union(x + 1, z) {
                bits |= MASK_EAST;
            }
            if bits != 0 {
                field.set_wall(x, z, bits);
            }
        }
    }
}

fn l_shape_union_walls(field: &mut WallField) {
    union_shell_from_rooms(field, &[(1, 4, 1, 4), (4, 7, 4, 6)]);
}

fn t_shape_union_walls(field: &mut WallField) {
    union_shell_from_rooms(field, &[(2, 4, 1, 6), (3, 6, 6, 7)]);
}

fn assert_has_pillar(pillars: &[CornerPillarPlacement], x: i32, z: i32) {
    assert!(
        pillars.iter().any(|p| p.x == x && p.z == z),
        "expected pillar at ({x},{z}), got {pillars:?}"
    );
}

#[test]
fn corner_from_perpendicular_dirs_maps_world_xz() {
    assert_eq!(
        corner_from_perpendicular_dirs(Dir::North, Dir::West),
        Some(WallCorner::Sw)
    );
    assert_eq!(
        corner_from_perpendicular_dirs(Dir::North, Dir::East),
        Some(WallCorner::Se)
    );
    assert_eq!(
        corner_from_perpendicular_dirs(Dir::South, Dir::West),
        Some(WallCorner::Nw)
    );
    assert_eq!(
        corner_from_perpendicular_dirs(Dir::South, Dir::East),
        Some(WallCorner::Ne)
    );
    assert_eq!(corner_from_perpendicular_dirs(Dir::North, Dir::South), None);
    assert_eq!(corner_from_perpendicular_dirs(Dir::East, Dir::West), None);
}

#[test]
fn l_shape_gets_sw_pillar_on_elbow() {
    let mut field = WallField::new(11);
    l_shape_union_walls(&mut field);
    let pillars = detect_corner_pillars(&field);
    let elbow = pillars
        .iter()
        .find(|p| p.x == 4 && p.z == 4)
        .expect("L union concave elbow at (4,4)");
    assert_eq!(elbow.corner, WallCorner::Sw);
}

#[test]
fn rectangle_shell_has_no_interior_pillars() {
    let mut field = WallField::new(11);
    for x in 2..=5 {
        for z in 2..=5 {
            let mut bits = 0u8;
            if z == 2 {
                bits |= MASK_NORTH;
            }
            if z == 5 {
                bits |= MASK_SOUTH;
            }
            if x == 2 {
                bits |= MASK_WEST;
            }
            if x == 5 {
                bits |= MASK_EAST;
            }
            if bits != 0 {
                field.set_wall(x, z, bits);
            }
        }
    }
    assert!(detect_corner_pillars(&field).is_empty());
}

#[test]
fn horizontal_run_endpoints_become_candidates() {
    let mut field = WallField::new(9);
    for x in 1..=6 {
        field.set_wall(x, 1, MASK_NORTH);
        field.set_wall(x, 6, MASK_SOUTH);
    }
    for z in 2..=5 {
        field.set_wall(1, z, MASK_WEST);
        field.set_wall(6, z, MASK_EAST);
    }
    for x in 3..=5 {
        field.set_wall(x, 3, MASK_SOUTH);
    }
    field.set_wall(2, 2, MASK_EAST);
    let pillars = detect_corner_pillars(&field);
    assert!(
        pillars.iter().any(|p| p.x == 2 && p.z == 3),
        "tile before a horizontal run with a perpendicular vertical wall gets a pillar, got {pillars:?}"
    );
}

#[test]
fn ignores_exterior_road_at_run_end() {
    let mut field = WallField::new(7);
    for x in 1..=4 {
        field.set_wall(x, 1, MASK_NORTH);
        field.set_wall(x, 4, MASK_SOUTH);
    }
    for z in 2..=3 {
        field.set_wall(1, z, MASK_WEST);
        field.set_wall(4, z, MASK_EAST);
    }
    let pillars = detect_corner_pillars(&field);
    assert!(
        pillars.iter().all(|p| p.x >= 2 && p.x <= 3 && p.z >= 2 && p.z <= 3),
        "pillars on interior only: {pillars:?}"
    );
}

#[test]
fn no_duplicate_pillar_cells() {
    let mut field = WallField::new(11);
    l_shape_union_walls(&mut field);
    let pillars = detect_corner_pillars(&field);
    let mut cells = HashSet::new();
    for p in &pillars {
        assert!(cells.insert((p.x, p.z)));
    }
}

#[test]
fn t_shape_gets_pillars_at_stem_bar_junction() {
    let mut field = WallField::new(11);
    t_shape_union_walls(&mut field);
    let pillars = detect_corner_pillars(&field);
    assert_has_pillar(&pillars, 3, 6);
    assert_has_pillar(&pillars, 4, 6);
}

#[test]
fn single_cell_horizontal_run_endpoint_gets_pillar() {
    let mut field = WallField::new(9);
    for x in 1..=6 {
        field.set_wall(x, 1, MASK_NORTH);
        field.set_wall(x, 6, MASK_SOUTH);
    }
    for z in 2..=5 {
        field.set_wall(1, z, MASK_WEST);
        field.set_wall(6, z, MASK_EAST);
    }
    field.set_wall(3, 3, MASK_SOUTH);
    field.set_wall(2, 2, MASK_EAST);
    let pillars = detect_corner_pillars(&field);
    assert_has_pillar(&pillars, 2, 3);
}

#[test]
fn single_cell_vertical_run_endpoint_gets_pillar() {
    let mut field = WallField::new(9);
    for x in 1..=6 {
        field.set_wall(x, 1, MASK_NORTH);
        field.set_wall(x, 6, MASK_SOUTH);
    }
    for z in 2..=5 {
        field.set_wall(1, z, MASK_WEST);
        field.set_wall(6, z, MASK_EAST);
    }
    field.set_wall(3, 3, MASK_EAST);
    field.set_wall(2, 2, MASK_NORTH);
    let pillars = detect_corner_pillars(&field);
    assert_has_pillar(&pillars, 3, 2);
}

#[test]
fn u_shape_gets_two_inner_pillars() {
    let mut field = WallField::new(13);
    union_shell_from_rooms(&mut field, &[(2, 6, 2, 8), (2, 4, 5, 6), (6, 8, 5, 6)]);
    let pillars = detect_corner_pillars(&field);
    assert_has_pillar(&pillars, 6, 5);
    assert_has_pillar(&pillars, 6, 6);
}

#[test]
fn multi_bit_corner_wall_next_to_elbow_still_gets_pillar() {
    let mut field = WallField::new(9);
    for x in 1..=6 {
        field.set_wall(x, 1, MASK_NORTH);
        field.set_wall(x, 6, MASK_SOUTH);
    }
    for z in 2..=5 {
        field.set_wall(1, z, MASK_WEST);
        field.set_wall(6, z, MASK_EAST);
    }
    field.set_wall(3, 3, MASK_SOUTH | MASK_WEST);
    field.set_wall(2, 2, MASK_EAST);
    let pillars = detect_corner_pillars(&field);
    assert_has_pillar(&pillars, 2, 3);
}

#[test]
fn procedural_maps_often_need_inner_corner_pillars() {
    let mut with_corners = 0u32;
    for seed in 0..256u64 {
        let cells = MapDraft::generate(MapGeneratorConfig {
            seed,
            ..Default::default()
        });
        let corners = cells
            .iter()
            .flatten()
            .filter(|c| matches!(c, CellType::Corner(_)))
            .count();
        if corners > 0 {
            with_corners += 1;
        }
    }
    assert!(
        with_corners > 20,
        "expected many procedural seeds to place corner pillars (got {with_corners}/256)"
    );
}

#[test]
fn no_wall_stands_outside_the_field() {
    let mut field = WallField::new(4);
    for (x, z) in [(-1, 0), (0, -1), (4, 0), (0, 4), (i32::MIN, i32::MAX)] {
        field.set_wall(x, z, 1);
        assert_eq!(field.wall_mask(x, z), None);
    }
    field.set_wall(3, 0, 6);
    assert_eq!(field.wall_mask(3, 0), Some(6));
    assert_eq!(field.wall_mask(0, 3), None);
    assert_eq!(field.size, 4);
}
