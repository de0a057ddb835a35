//! Road corridors between chunks.
use everly::map::hypermap::{ChunkCoord, Hypermap, LocalCoord, HYPERMAP_CHUNK_SIZE};
use everly::map::map_generator::draft::MapDraft;
use everly::map::map_generator::step_chunk_connectors::{cell_is_road, plan_chunk_connectors};
use everly::map::map_generator::types::{
    MapGeneratorConfig, CHUNK_CONNECTOR_WIDTH_MAX, CHUNK_CONNECTOR_WIDTH_MIN, CHUNK_VOID_MARGIN,
    CONNECTORS_PER_SIDE_MAX, CONNECTORS_PER_SIDE_MIN,
};
use everly::map::world_map::CellType;

#[test]
fn random_connectors_respect_width_and_count() {
    for seed in 0..64u64 {
        let plan = plan_chunk_connectors(
            &Hypermap::new(CellType::Void),
            ChunkCoord::new(0, 0),
            CHUNK_VOID_MARGIN,
            HYPERMAP_CHUNK_SIZE,
            seed,
        );
        for side in [
            &plan.west,
            &plan.east,
            &plan.south,
            &plan.north,
        ] {
            assert!(
                (CONNECTORS_PER_SIDE_MIN as usize..=CONNECTORS_PER_SIDE_MAX as usize)
                    .contains(&side.len()),
                "seed {seed}: side connector count {}",
                side.len()
            );
            for c in side.iter() {
                assert!(
                    (CHUNK_CONNECTOR_WIDTH_MIN..=CHUNK_CONNECTOR_WIDTH_MAX)
                        .contains(&c.width),
                    "seed {seed}: width {}",
                    c.width
                );
            }
        }
    }
}

#[test]
fn neighbor_connectors_align_across_chunks() {
    let mut map = Hypermap::new(CellType::Void);
    let west_coord = ChunkCoord::new(0, 0);
    let east_coord = ChunkCoord::new(1, 0);
    let seed = 0xC0FF_EE01_u64;

    let plan = plan_chunk_connectors(
        &map,
        west_coord,
        CHUNK_VOID_MARGIN,
        HYPERMAP_CHUNK_SIZE,
        seed,
    );
    let west_meta = map.with_chunk_write(west_coord, |chunk| {
        let mut draft = MapDraft::new(MapGeneratorConfig {
            seed,
            ..Default::default()
        });
        draft.connector_plan = plan;
        draft.run_pipeline();
        let size = draft.size;
        let meta = draft.build_metadata();
        let cells = draft.finish();
        for z in 0..size as usize {
            for x in 0..size as usize {
                chunk.set_local(LocalCoord::new(x as i32, z as i32), cells[z][x]);
            }
        }
        meta
    });

    let plan = plan_chunk_connectors(
        &map,
        east_coord,
        CHUNK_VOID_MARGIN,
        HYPERMAP_CHUNK_SIZE,
        seed,
    );
    let east_meta = map.with_chunk_write(east_coord, |chunk| {
        let mut draft = MapDraft::new(MapGeneratorConfig {
            seed: seed.wrapping_add(1),
            ..Default::default()
        });
        draft.connector_plan = plan;
        draft.run_pipeline();
        let size = draft.size;
        let meta = draft.build_metadata();
        let cells = draft.finish();
        for z in 0..size as usize {
            for x in 0..size as usize {
                chunk.set_local(LocalCoord::new(x as i32, z as i32), cells[z][x]);
            }
        }
        meta
    });

    assert_eq!(west_meta.road_connectors.east, east_meta.road_connectors.west);

    for z in 0..HYPERMAP_CHUNK_SIZE {
        let west_road = map
            .with_chunk_read(west_coord, |c| {
                cell_is_road(c.get_local_floor(
                    LocalCoord::new(HYPERMAP_CHUNK_SIZE - 1, z),
                    0,
                ))
            })
            .unwrap();
        let east_road = map
            .with_chunk_read(east_coord, |c| {
                cell_is_road(c.get_local_floor(LocalCoord::new(0, z), 0))
            })
            .unwrap();
        assert_eq!(
            west_road, east_road,
            "z={z}: west east-edge road {west_road} != east west-edge road {east_road}"
        );
    }
}

#[test]
fn stamped_margin_connectors_become_road() {
    let mut draft = MapDraft::new(MapGeneratorConfig {
        seed: 7,
        ..Default::default()
    });
    draft.connector_plan = plan_chunk_connectors(
        &Hypermap::new(CellType::Void),
        ChunkCoord::new(3, -2),
        draft.margin,
        draft.size,
        draft.generator_seed,
    );
    draft.step_init_carpet();
    draft.step_stamp_chunk_connectors();
    let west_connectors = draft.connector_plan.west.clone();
    let cells = draft.finish();
    for connector in &west_connectors {
        for z in connector.start..connector.start + connector.width {
            assert_eq!(
                cells[z as usize][0],
                CellType::Road,
                "west margin z={z}"
            );
        }
    }
}

#[test]
fn a_short_side_gets_one_narrow_corridor_or_none() {
    let map = Hypermap::new(CellType::Void);
    let mut none = 0;
    for seed in 0..64 {
        let plan = plan_chunk_connectors(&map, ChunkCoord::new(0, 0), 2, 7, seed);
        for side in [&plan.west, &plan.east, &plan.south, &plan.north] {
            assert!(side.len() <= 1);
            assert!(side.iter().all(|c| (c.start, c.width) == (2, 3)));
            none += usize::from(side.is_empty());
        }
    }
    assert!(none > 100, "a wide roll ends the planning of the side: {none} of 256");
}
