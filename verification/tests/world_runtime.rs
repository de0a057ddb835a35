//! The world's chunks, what mirrors them, and the dirt on them.
use everly::map::chunk_metadata::chunk_metadata_path;
use everly::map::dirt::{dirt_of_hotspots, passable_tiles_of_chunk, seed_chunk};
use everly::map::hypermap::{ChunkCoord, DoubleBufferedHypermap, Hypermap};
use everly::map::hypermap_world::loading::{ChunkFiles, ChunkSource, MetadataFile};
use everly::map::hypermap_world::render_cells::{
    build_chunk_render_data, chunk_snapshot, PreparedChunkRender,
};
use everly::map::hypermap_world::runtime::HypermapRuntime;
use everly::map::level::{encode_chunk_geometry, LevelTextError};
use everly::map::level_files::new_level_origin_file;
use everly::map::map_generator::types::{ChunkRoadConnectors, GeneratedChunkMetadata};
use everly::map::passability::{FLAG_BLOCKED, FLAG_VOID};
use everly::map::world_map::{CellType, TileStyle, WallMask, MASK_NORTH};
use everly::map::world_map_floor::MapParseError;

fn flags(cell: CellType, _sx: usize, _sy: usize) -> u64 {
    match cell {
        CellType::Void => FLAG_VOID,
        CellType::Wall(_) | CellType::Corner(_) => FLAG_BLOCKED,
        _ => 0,
    }
}

fn no_files() -> ChunkFiles {
    ChunkFiles {
        geometry: None,
        metadata: MetadataFile::Absent,
        floor_style: None,
        wall_style: None,
        world_floor0: None,
        world_floor1: None,
    }
}

fn mirrors(world: &HypermapRuntime, coord: ChunkCoord) {
    for y in coord.y * 128..coord.y * 128 + 128 {
        for x in coord.x * 128..coord.x * 128 + 128 {
            let cell = world.map.get(x, y);
            let open = matches!(
                cell,
                CellType::Road | CellType::Charger(_) | CellType::PartsDepot(_)
            );
            assert_eq!(world.static_passability_map.get(x, y), open);
            assert_eq!(
                world.static_subtile_cache.get(x, y).flags_at(2, 3),
                flags(cell, 3, 2)
            );
        }
    }
}

#[test]
fn writes_are_mirrored() {
    let mut world = HypermapRuntime::new();
    let wall = CellType::Wall(WallMask::from_bits(MASK_NORTH).unwrap());
    world.write_world_cell(-5, 9, 0, wall, &flags);
    assert_eq!(world.map.get(-5, 9), wall);
    assert!(!world.static_passability_map.get(-5, 9));
    assert_eq!(world.static_subtile_cache.get(-5, 9).flags_at(0, 0), FLAG_BLOCKED);
    world.write_world_cell(-5, 9, 3, CellType::Void, &flags);
    assert!(!world.static_passability_map.get_floor(-5, 9, 3));
    assert_eq!(world.static_subtile_cache.get(-5, 9).flags_at(0, 0), FLAG_BLOCKED);
    world.write_world_floor_style(-5, 9, 0, TileStyle::FLOOR_GLASS);
    world.write_world_wall_style(-5, 9, 0, TileStyle::WALL_GLASS);
    assert_eq!(world.style_floor_map.get(-5, 9), TileStyle::FloorGlass);
    assert_eq!(world.style_wall_map.get(-5, 9), TileStyle::WallGlass);
}

#[test]
fn a_missing_chunk_is_generated_once() {
    let mut world = HypermapRuntime::new();
    let coord = ChunkCoord::new(3, -2);
    let report = world.ensure_chunk_generated(coord, no_files(), &flags);
    assert_eq!(report.source, ChunkSource::Generated);
    assert!(report.geometry.is_none());
    assert!(world.procedural_metadata.get(coord).is_some());
    mirrors(&world, coord);
    let before = encode_chunk_geometry(world.map.get_chunk(coord).unwrap());
    let again = world.ensure_chunk_generated(coord, no_files(), &flags);
    assert_eq!(again.source, ChunkSource::Held);
    assert_eq!(encode_chunk_geometry(world.map.get_chunk(coord).unwrap()), before);
    assert!(world.regenerate_procedural_chunk(coord, &flags));
    mirrors(&world, coord);
}

#[test]
fn a_saved_chunk_is_loaded() {
    let mut world = HypermapRuntime::new();
    let coord = ChunkCoord::new(1, 1);
    let mut files = no_files();
    files.geometry = Some(new_level_origin_file("any").1);
    files.metadata = MetadataFile::Read(GeneratedChunkMetadata {
        version: 2,
        generator_seed: 77,
        houses: vec![],
        road_connectors: ChunkRoadConnectors::default(),
    });
    files.floor_style = Some("# floor 0\nfg\n".to_string());
    let report = world.ensure_chunk_generated(coord, files, &flags);
    assert_eq!(report.source, ChunkSource::Loaded);
    assert!(report.geometry.is_none());
    assert_eq!(
        report.floor_style,
        Some(LevelTextError::TokenCount { line: 2, floor: 0, row: 0, tokens: 1 })
    );
    assert_eq!(world.map.get(130, 140), CellType::Road);
    assert_eq!(world.style_floor_map.get(130, 140), TileStyle::Regular);
    assert_eq!(world.procedural_metadata.get(coord).unwrap().generator_seed, 77);
    mirrors(&world, coord);
}

#[test]
fn a_rejected_chunk_is_generated_and_the_center_gets_its_floors() {
    let mut world = HypermapRuntime::new();
    let coord = ChunkCoord::new(0, 0);
    let mut files = no_files();
    files.geometry = Some("nonsense".to_string());
    files.world_floor0 = Some("..__\n__wn\n".to_string());
    files.world_floor1 = Some("?".to_string());
    let report = world.ensure_chunk_generated(coord, files, &flags);
    assert_eq!(report.source, ChunkSource::Generated);
    assert_eq!(report.geometry, Some(LevelTextError::MissingHeader { line: 1 }));
    assert_eq!(report.world_floor0, None);
    assert_eq!(report.world_floor1, Some(MapParseError::UnevenRow { row: 0 }));
    assert_eq!(world.map.get(63, 63), CellType::Void);
    assert_eq!(world.map.get(64, 63), CellType::Road);
    assert_eq!(
        world.map.get(64, 64),
        CellType::Wall(WallMask::from_bits(MASK_NORTH).unwrap())
    );
    mirrors(&world, coord);
}

#[test]
fn the_second_flush_clears_what_was_read() {
    let mut buffers = DoubleBufferedHypermap::new(0u8);
    buffers.set(4, 4, 9);
    buffers.flush();
    assert_eq!(buffers.get(4, 4), 9);
    buffers.flush();
    assert_eq!(buffers.get(4, 4), 0);
}

fn floor_cells(p: &PreparedChunkRender) -> usize {
    p.floor0_road_cells.len()
        + p.floor0_glass_floor_cells.len()
        + p.floor0_pavement_cells.len()
        + p.floor0_marble_cells.len()
}

#[test]
fn ground_cells_are_drawn_once() {
    let mut map = Hypermap::new(CellType::Void);
    let mut floors = Hypermap::new(TileStyle::DEFAULT);
    let mut walls = Hypermap::new(TileStyle::DEFAULT);
    let wall = CellType::Wall(WallMask::from_bits(MASK_NORTH).unwrap());
    map.set(0, 0, CellType::Road);
    map.set(1, 0, CellType::Road);
    map.set(2, 0, wall);
    map.set(3, 0, wall);
    map.set_floor(5, 5, 1, CellType::Road);
    floors.set(1, 0, TileStyle::FLOOR_MARBLE);
    walls.set(3, 0, TileStyle::WALL_GLASS);
    let coord = ChunkCoord::new(0, 0);
    let snapshot = chunk_snapshot(&map, &floors, &walls, coord).unwrap();
    assert_eq!(snapshot.len(), 163_840);
    let ground = build_chunk_render_data(snapshot, 0);
    assert_eq!(floor_cells(&ground), 4);
    assert_eq!(ground.floor0_marble_cells, vec![(1, 0, CellType::Road)]);
    assert_eq!(ground.floor0_wall_cells, vec![(2, 0, wall)]);
    assert_eq!(ground.floor0_glass_cells, vec![(3, 0, wall)]);
    assert!(ground.has_void_floor0_water);
    assert!(ground.upper_road_default_cells.is_empty());
    let again = chunk_snapshot(&map, &floors, &walls, coord).unwrap();
    let above = build_chunk_render_data(again, 1);
    assert_eq!(above.upper_road_default_cells, vec![(5, 5, 1, CellType::Road)]);
    assert!(chunk_snapshot(&map, &floors, &walls, ChunkCoord::new(9, 9)).is_none());
}

#[test]
fn dirt_spreads_over_open_ground_only() {
    let mut open = Hypermap::new(false);
    for x in 0..10 {
        open.set(x, 0, true);
    }
    open.set(3, 0, false);
    let coord = ChunkCoord::new(0, 0);
    let tiles = passable_tiles_of_chunk(&open, coord);
    assert_eq!(tiles.len(), 9);
    let wave: Vec<u32> = (0..21).map(|d| 100 * (21 - d)).collect();
    let values = dirt_of_hotspots(&open, coord, &vec![(0, 0)], &wave);
    assert_eq!(values.len(), 128 * 128);
    assert_eq!(values[0..5], [2_100, 2_000, 1_900, 0, 0]);
    assert_eq!(values[128], 0);
    let twice = dirt_of_hotspots(&open, coord, &vec![(0, 0), (2, 0)], &wave);
    assert_eq!(twice[0..4], [4_000, 4_000, 4_000, 0]);
}

#[test]
fn chunks_without_ground_stay_clean() {
    let wave: Vec<u32> = vec![1; 21];
    let coord = ChunkCoord::new(-1, 2);
    let mut open = Hypermap::new(false);
    assert!(seed_chunk(&open, coord, &wave).is_none());
    open.set(-1, 256, true);
    assert!(seed_chunk(&open, coord, &wave).is_none());
    open.set(-2, 256, true);
    let values = seed_chunk(&open, coord, &wave).unwrap();
    assert_eq!(values[127], 2);
    assert_eq!(values[126], 2);
    assert!(values[..126].iter().all(|v| *v == 0));
}

#[test]
fn metadata_lies_beside_the_geometry() {
    assert_eq!(
        chunk_metadata_path("town", ChunkCoord::new(-1, 0)),
        "levels/level_town/metadata/-1_0.json"
    );
}
