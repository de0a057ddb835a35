//! What is shown of the world around the camera.
use everly::map::chunk_overlay::{paint_occupancy, ChunkOverlayState, PathOverlayEnabled};
use everly::map::dirt::{DirtLedger, DirtMap, SeedStep};
use everly::map::dirt_overlay::{
    dirt_to_rgba, overlays_to_repaint, paint_dirt_chunk_supersampled, sync_dirt_overlays,
};
use everly::map::hypermap::{ChunkCoord, Hypermap, LocalCoord};
use everly::map::hypermap_world::mesh::{
    build_floor0_road_mesh, build_floor0_wall_mesh, build_upper_road_mesh, build_wall_mesh, Point3,
    Slab, WallShapes,
};
use everly::map::hypermap_world::streaming::{
    is_in_center_dead_zone, queue_hypermap_chunk_remesh, target_chunks_for, ChunkStream,
    HypermapChunkRemeshQueue,
};
use everly::map::passability::{SubtilePassability, FLAG_BLOCKED, FLAG_VOID};
use everly::map::world_map::{CellType, WallCorner, WallMask, MASK_EAST, MASK_SOUTH};

#[test]
fn target_chunks_always_three() {
    let center = ChunkCoord::new(0, 0);
    for &(lx, ly) in &[(0, 0), (63, 63), (64, 64), (127, 127)] {
        let set = target_chunks_for(center, LocalCoord::new(lx, ly));
        assert_eq!(set.len(), 3, "local ({lx},{ly})");
        assert!(set.contains(&center));
    }
}

#[test]
fn target_chunks_prefetch_toward_camera_side() {
    let center = ChunkCoord::new(0, 0);
    let west_south = target_chunks_for(center, LocalCoord::new(10, 10));
    assert!(west_south.contains(&ChunkCoord::new(-1, 0)));
    assert!(west_south.contains(&ChunkCoord::new(0, -1)));

    let east_north = target_chunks_for(center, LocalCoord::new(100, 100));
    assert!(east_north.contains(&ChunkCoord::new(1, 0)));
    assert!(east_north.contains(&ChunkCoord::new(0, 1)));
}

#[test]
fn the_dead_zone_is_the_middle_of_a_chunk() {
    assert!(is_in_center_dead_zone(LocalCoord::new(54, 73)));
    assert!(!is_in_center_dead_zone(LocalCoord::new(53, 64)));
    assert!(!is_in_center_dead_zone(LocalCoord::new(64, 74)));
}

#[test]
fn edits_queue_their_chunk_once() {
    let mut queue = HypermapChunkRemeshQueue::default();
    queue_hypermap_chunk_remesh(&mut queue, -1, 0);
    queue_hypermap_chunk_remesh(&mut queue, -128, 127);
    queue_hypermap_chunk_remesh(&mut queue, 0, 128);
    assert_eq!(queue.0, vec![ChunkCoord::new(-1, 0), ChunkCoord::new(0, 1)]);
}

#[test]
fn chunks_are_built_one_per_tick_and_shown() {
    let mut stream: ChunkStream<u32> = ChunkStream::new();
    let builds = stream.update_visible(1, 1).expect("first look");
    assert_eq!(builds.len(), 3);
    for (i, coord) in builds.iter().enumerate() {
        stream.complete(*coord, i as u32);
    }
    for i in 0..3 {
        let tick = stream.tick(false);
        assert_eq!(tick.spawn, Some((builds[i], i as u32)));
        assert!(tick.despawn.is_none());
    }
    assert!(stream.tick(true).spawn.is_none(), "nothing is left to put up");
    assert!(stream.is_world_pos_rendered(5, 5));
    assert!(!stream.is_world_pos_rendered(500, 500));
    assert_eq!(stream.desired_chunk_coords().len(), 3);
    assert!(stream.update_visible(1, 1).is_none(), "nothing changed");
}

#[test]
fn a_layer_follows_the_desired_chunks() {
    let mut layer: ChunkOverlayState<u8, u8> = ChunkOverlayState::new();
    let (a, b) = (ChunkCoord::new(0, 0), ChunkCoord::new(1, 0));
    let sync = layer.sync(&vec![a, b]);
    assert_eq!(sync.wanted, vec![a, b]);
    layer.insert(a, 10, 1, 2);
    layer.insert(b, 11, 3, 4);
    assert_eq!(layer.image_for(b), Some(&3));
    assert_eq!(layer.material_for(a), Some(&2));
    let sync = layer.sync(&vec![b]);
    assert_eq!((sync.gone, sync.wanted.len()), (vec![10], 0));
    assert_eq!(layer.iter_coords(), &vec![b]);
    assert_eq!(layer.image_for(a), None);
    let mut paths = PathOverlayEnabled::default();
    paths.toggle();
    assert!(paths.0);
}

#[test]
fn occupancy_texels_show_the_flags() {
    let mut map: Hypermap<SubtilePassability> = Hypermap::new(SubtilePassability::empty());
    let mut tile = SubtilePassability::empty();
    tile.or_flags(2, 3, FLAG_BLOCKED);
    tile.or_flags(4, 4, FLAG_VOID);
    map.set(1, 127, tile);
    let data = paint_occupancy(&map, ChunkCoord::new(0, 0));
    assert_eq!(data.len(), 640 * 640 * 4);
    let texel = |px: usize, py: usize| {
        data[(py * 640 + px) * 4..(py * 640 + px) * 4 + 4].to_vec()
    };
    assert_eq!(texel(8, 637), vec![210, 130, 50, 160]);
    assert_eq!(texel(9, 639), vec![50, 90, 210, 110]);
    assert_eq!(texel(0, 0), vec![0, 0, 0, 0]);
    assert!(paint_occupancy(&map, ChunkCoord::new(5, 5)).iter().all(|&b| b == 0));
}

#[test]
fn stains_fade_between_tiles() {
    let mut dirt: Hypermap<u32> = Hypermap::new(0);
    dirt.set(10, 10, 1_000_000);
    let data = paint_dirt_chunk_supersampled(&dirt, ChunkCoord::new(0, 0));
    assert_eq!(data.len(), 512 * 512 * 4);
    let alpha = |px: usize, py: usize| data[(py * 512 + px) * 4 + 3];
    // The four texels round the tile's centre: seven eighths on both axes.
    assert_eq!(alpha(41, 41), 195);
    assert_eq!(alpha(42, 42), 195);
    assert_eq!(alpha(40, 40), 100);
    assert_eq!(alpha(38, 38), 4);
    assert_eq!(alpha(37, 37), 0);
    assert_eq!(dirt_to_rgba(64_000_000), [0, 0, 0, 255]);
    assert_eq!(dirt_to_rgba(640_000_000), [0, 0, 0, 255]);
}

#[test]
fn stains_continue_over_chunk_borders() {
    let mut dirt: Hypermap<u32> = Hypermap::new(0);
    dirt.set(127, 0, 640_000);
    dirt.set(128, 0, 0);
    let left = paint_dirt_chunk_supersampled(&dirt, ChunkCoord::new(0, 0));
    let right = paint_dirt_chunk_supersampled(&dirt, ChunkCoord::new(1, 0));
    assert_eq!(left[(2 * 512 + 511) * 4 + 3], 89);
    assert_eq!(right[(2 * 512) * 4 + 3], 54);
}

#[test]
fn new_dirt_overlays_are_drawn() {
    let mut layer: ChunkOverlayState<u8, u8> = ChunkOverlayState::new();
    let mut ledger = DirtLedger::new();
    let a = ChunkCoord::new(2, 2);
    let sync = sync_dirt_overlays(&mut layer, &mut ledger, &vec![a]);
    assert_eq!(sync.wanted, vec![a]);
    layer.insert(a, 1, 1, 1);
    ledger.mark_dirty(ChunkCoord::new(9, 9));
    assert_eq!(overlays_to_repaint(&layer, &mut ledger), vec![a]);
    assert_eq!(overlays_to_repaint(&layer, &mut ledger), Vec::<ChunkCoord>::new());
}

#[test]
fn dirt_is_seeded_once_per_chunk_and_read_once_per_level() {
    let mut ledger = DirtLedger::new();
    let a = ChunkCoord::new(0, 3);
    assert!(!ledger.needs_seed(a, false));
    assert!(ledger.needs_seed(a, true));
    ledger.mark_seeded(a);
    assert!(!ledger.needs_seed(a, true));
    ledger.reset_chunk_for_regeneration(a);
    assert!(ledger.needs_seed(a, true));
    assert!(ledger.hydrate("first"));
    assert!(!ledger.hydrate("first"));
    assert!(ledger.hydrate("second"));
}

#[test]
fn floor_quads_and_boxes_become_vertices() {
    let cells = vec![(0, 0, 2, CellType::Road), (1, 0, 2, CellType::Void)];
    let mesh = build_upper_road_mesh(&cells, 128, -128, 3_000).expect("one quad");
    assert_eq!(mesh.positions.len(), 4);
    assert_eq!(mesh.positions[2], Point3 { x: 129_000, y: 6_000, z: -127_000 });
    assert_eq!(mesh.indices, vec![0, 2, 1, 0, 3, 2]);
    assert!(build_upper_road_mesh(&vec![(1, 0, 2, CellType::Void)], 0, 0, 1).is_none());
    let slab = Slab {
        center: Point3 { x: 500, y: 1_000, z: 0 },
        half: Point3 { x: 500, y: 1_000, z: 50 },
    };
    let mesh = build_wall_mesh(&vec![slab]).expect("one box");
    assert_eq!((mesh.positions.len(), mesh.indices.len()), (24, 36));
    assert_eq!(mesh.normals[8], Point3 { x: 1, y: 0, z: 0 });
    assert_eq!(mesh.positions[8], Point3 { x: 1_000, y: 0, z: -50 });
    assert!(build_wall_mesh(&Vec::new()).is_none());
}

#[test]
fn walls_stand_in_the_middle_of_their_cells() {
    let slab = |x: i64, z: i64| Slab {
        center: Point3 { x, y: 1_000, z },
        half: Point3 { x: 50, y: 1_000, z: 50 },
    };
    let shapes = WallShapes {
        north: slab(0, -450),
        south: slab(0, 450),
        east: slab(450, 0),
        west: slab(-450, 0),
        corner_ne: slab(450, -450),
        corner_nw: slab(-450, -450),
        corner_se: slab(450, 450),
        corner_sw: slab(-450, 450),
    };
    let mask = WallMask::from_bits(MASK_SOUTH | MASK_EAST).unwrap();
    let cells = vec![
        (3, 0, CellType::Wall(mask)),
        (4, 0, CellType::Road),
        (5, 0, CellType::Corner(WallCorner::Nw)),
    ];
    let mesh = build_floor0_wall_mesh(&shapes, &cells, 10, 0).expect("three boxes");
    assert_eq!(mesh.positions.len(), 3 * 24);
    assert_eq!(mesh.positions[0], Point3 { x: 13_450, y: 2_000, z: 900 });
    assert_eq!(mesh.positions[24], Point3 { x: 13_900, y: 2_000, z: 450 });
    assert_eq!(mesh.positions[48], Point3 { x: 15_000, y: 2_000, z: 0 });
    assert!(build_floor0_wall_mesh(&shapes, &vec![(4, 0, CellType::Road)], 0, 0).is_none());
    let floor = build_floor0_road_mesh(&cells, 10, 0).expect("three quads");
    assert_eq!(floor.positions.len(), 12);
}

#[test]
fn a_chunk_is_seeded_once_unless_its_dirt_is_saved() {
    let a = ChunkCoord::new(0, 0);
    let mut ledger = DirtLedger::new();
    assert_eq!(ledger.seed_step(a, false, false), SeedStep::Leave);
    assert!(ledger.seeded_chunks.is_empty());
    assert_eq!(ledger.seed_step(a, true, true), SeedStep::UseSaved);
    assert_eq!(ledger.seed_step(a, true, false), SeedStep::Leave);
    assert_eq!(ledger.seeded_chunks, vec![a]);
    assert_eq!(ledger.take_dirty_chunks(), vec![a]);

    let wave: Vec<u32> = vec![1_000; 21];
    let mut world: Hypermap<CellType> = Hypermap::new(CellType::Road);
    let mut open: Hypermap<bool> = Hypermap::new(false);
    open.set(5, 6, true);
    open.set(6, 6, true);
    let mut dirt = DirtMap::new();
    assert_eq!(dirt.ensure_chunk_seeded(&world, &open, a, &wave), SeedStep::Leave);
    world.set(0, 0, CellType::Road);
    assert_eq!(dirt.ensure_chunk_seeded(&world, &open, a, &wave), SeedStep::Seed);
    assert_eq!(dirt.get_tile(5, 6), 2_000);
    assert_eq!(dirt.get_tile(6, 6), 2_000);
    assert_eq!(dirt.get_tile(7, 6), 0);
    assert_eq!(dirt.ensure_chunk_seeded(&world, &open, a, &wave), SeedStep::Leave);

    dirt.reset_chunk_for_regeneration(a);
    assert_eq!(dirt.get_tile(5, 6), 0);
    assert_eq!(dirt.ensure_chunk_seeded(&world, &open, a, &wave), SeedStep::Seed);

    let mut saved = DirtMap::new();
    saved.field.set(1, 1, 77);
    assert_eq!(saved.ensure_chunk_seeded(&world, &open, a, &wave), SeedStep::UseSaved);
    assert_eq!(saved.get_tile(1, 1), 77);
    assert_eq!(saved.get_tile(5, 6), 0);
    assert_eq!(saved.ledger.dirty_chunks, vec![a]);
}

#[test]
fn a_removed_chunk_reads_as_default() {
    let mut map: Hypermap<u32> = Hypermap::new(9);
    map.set(0, 0, 1);
    map.set(128, 0, 2);
    map.set(256, 0, 3);
    map.remove_chunk(ChunkCoord::new(1, 0));
    map.remove_chunk(ChunkCoord::new(7, 7));
    assert_eq!((map.get(0, 0), map.get(128, 0), map.get(256, 0)), (1, 9, 3));
    assert_eq!(map.loaded_chunks(), vec![ChunkCoord::new(0, 0), ChunkCoord::new(2, 0)]);
}

#[test]
fn every_side_of_a_box_turns_counter_clockwise() {
    let slab = Slab {
        center: Point3 { x: 10, y: 20, z: 30 },
        half: Point3 { x: 1, y: 2, z: 3 },
    };
    let mesh = build_wall_mesh(&vec![slab]).expect("a box");
    assert_eq!(mesh.indices.len(), 36);
    for t in mesh.indices.chunks(3) {
        let p = |i: usize| mesh.positions[t[i] as usize];
        let n = mesh.normals[t[0] as usize];
        let (a, b, c) = (p(0), p(1), p(2));
        let (ux, uy, uz) = (b.x - a.x, b.y - a.y, b.z - a.z);
        let (vx, vy, vz) = (c.x - a.x, c.y - a.y, c.z - a.z);
        let along = n.x * (uy * vz - uz * vy) + n.y * (uz * vx - ux * vz) + n.z * (ux * vy - uy * vx);
        assert!(along > 0, "triangle {t:?} faces away");
        let outward = n.x * (a.x - 10) + n.y * (a.y - 20) + n.z * (a.z - 30);
        assert!(outward > 0, "the normal points out of the box");
    }
    // The south side starts at its east end.
    assert_eq!(mesh.positions[16], Point3 { x: 11, y: 18, z: 33 });
}
