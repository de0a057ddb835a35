//! Level files: what is written, what is read back, and what is refused.
use everly::map::hypermap::{ChunkCoord, Hypermap, HypermapChunk, LocalCoord};
use everly::map::level::{
    apply_level_geometry_text, apply_level_style_text, clear_chunk_all_void,
    encode_chunk_geometry, encode_chunk_style, parse_level_geometry_sections,
    parse_level_style_sections, LevelTextError,
};
use everly::map::level_files::{
    all_level_geometry_files, chunk_geometry_path, chunk_style_wall_path, level_floor_style_files,
    level_geometry_files, new_level_origin_file, pick_new_level_name, LevelName,
};
use everly::map::world_map::{
    cell_to_token, parse_cell_token, parse_style_token, CellType, ChargerFacing, TileStyle,
    WallCorner, WallMask,
};
use everly::map::world_map_floor::{MapParseError, WorldMapFloor};

fn row(token: &str, n: usize) -> String {
    vec![token; n].join(" ")
}

fn section(floor: &str, token: &str, rows: usize) -> String {
    let mut text = format!("# floor {floor}\n");
    for _ in 0..rows {
        text.push_str(&row(token, 128));
        text.push('\n');
    }
    text
}

#[test]
fn every_cell_is_read_back() {
    let mut chunk = HypermapChunk::new(&CellType::Void);
    let mut cells = vec![CellType::Void, CellType::Road];
    for bits in 1..16 {
        cells.push(CellType::Wall(WallMask::from_bits(bits).unwrap()));
    }
    for corner in [WallCorner::Nw, WallCorner::Ne, WallCorner::Sw, WallCorner::Se] {
        cells.push(CellType::Corner(corner));
    }
    for facing in [
        ChargerFacing::North,
        ChargerFacing::South,
        ChargerFacing::East,
        ChargerFacing::West,
    ] {
        cells.push(CellType::Charger(facing));
        cells.push(CellType::PartsDepot(facing));
    }
    for (i, cell) in cells.iter().enumerate() {
        chunk.set_local_floor(LocalCoord::new(i as i32, 0), 0, *cell);
        chunk.set_local_floor(LocalCoord::new(127, i as i32), 7, *cell);
        chunk.set_local_floor(LocalCoord::new(i as i32, 127), 9, *cell);
    }
    let text = encode_chunk_geometry(&chunk);
    let mut other = HypermapChunk::new(&CellType::Road);
    apply_level_geometry_text(&mut other, &text).unwrap();
    for floor in 0..10 {
        for y in 0..128 {
            for x in 0..128 {
                let at = LocalCoord::new(x, y);
                assert_eq!(
                    other.get_local_floor(at, floor),
                    chunk.get_local_floor(at, floor)
                );
            }
        }
    }
    assert_eq!(encode_chunk_geometry(&other), text);
}

#[test]
fn styles_are_read_back() {
    let mut chunk = HypermapChunk::new(&TileStyle::DEFAULT);
    chunk.set_local(LocalCoord::new(3, 4), TileStyle::FLOOR_MARBLE);
    chunk.set_local_floor(LocalCoord::new(5, 6), 2, TileStyle::WALL_GLASS);
    let text = encode_chunk_style(&chunk);
    let mut other = HypermapChunk::new(&TileStyle::DEFAULT);
    apply_level_style_text(&mut other, &text).unwrap();
    assert_eq!(*other.get_local(LocalCoord::new(3, 4)), TileStyle::FloorMarble);
    assert_eq!(*other.get_local_floor(LocalCoord::new(5, 6), 2), TileStyle::WallGlass);
    assert_eq!(*other.get_local(LocalCoord::new(4, 3)), TileStyle::Regular);
}

#[test]
fn tokens_are_unambiguous() {
    let mut seen: Vec<&str> = vec![];
    for bits in 1..16 {
        let cell = CellType::Wall(WallMask::from_bits(bits).unwrap());
        let token = cell_to_token(cell);
        assert!(!seen.contains(&token));
        seen.push(token);
        let chars: Vec<char> = token.chars().collect();
        assert_eq!(parse_cell_token(chars[0], chars[1]), Some(cell));
    }
    assert_eq!(cell_to_token(CellType::Road), "__");
    assert_eq!(cell_to_token(CellType::Void), "..");
    assert_eq!(parse_cell_token('w', 'z'), None);
    assert_eq!(parse_cell_token('c', '5'), None);
    assert_eq!(parse_cell_token('p', 'x'), None);
    assert_eq!(parse_style_token('f', 'p'), Some(TileStyle::FloorPavement));
    assert_eq!(parse_style_token('f', 'x'), None);
    assert!(WallMask::from_bits(0).is_none());
    assert!(WallMask::from_bits(16).is_none());
}

#[test]
fn sections_come_in_the_order_of_the_text() {
    let text = format!("\n{}\n   \n{}", section("1", "__", 128), section(" 9 ", "..", 128));
    let sections = parse_level_geometry_sections(&text).unwrap();
    assert_eq!(sections.len(), 2);
    assert_eq!(sections[0].0, 1);
    assert_eq!(sections[1].0, 9);
    assert!(sections[0].1.iter().all(|r| r.len() == 128 && r[5] == CellType::Road));
    assert!(parse_level_geometry_sections("").unwrap().is_empty());
}

#[test]
fn every_fault_of_a_level_text_is_told() {
    let fault = |text: &str| parse_level_geometry_sections(text).unwrap_err();
    assert_eq!(
        fault(&format!("{}# floor 1\n", section("0", "..", 3))),
        LevelTextError::RowCount { line: 5, floor: 0, rows: 3 }
    );
    assert_eq!(fault("# floor one\n"), LevelTextError::BadFloorIndex { line: 1 });
    assert_eq!(
        fault("\n# floor 10\n"),
        LevelTextError::FloorOutOfRange { line: 2, floor: 10 }
    );
    assert_eq!(
        fault("# floor -1\n"),
        LevelTextError::FloorOutOfRange { line: 1, floor: -1 }
    );
    assert_eq!(fault(&row("..", 128)), LevelTextError::MissingHeader { line: 1 });
    assert_eq!(
        fault(&section("2", "..", 129)),
        LevelTextError::TooManyRows { line: 130, floor: 2 }
    );
    assert_eq!(
        fault(&format!("# floor 0\n{}\n", row("..", 127))),
        LevelTextError::TokenCount { line: 2, floor: 0, row: 0, tokens: 127 }
    );
    assert_eq!(
        fault(&format!("# floor 0\n{} xx {}\n", row("..", 9), row("..", 118))),
        LevelTextError::InvalidToken { line: 2, floor: 0, row: 0, col: 9 }
    );
    assert_eq!(
        fault(&section("0", "__", 127)),
        LevelTextError::SectionEnded { floor: 0, rows: 127 }
    );
    assert!(matches!(
        parse_level_style_sections(&section("0", "__", 128)),
        Err(LevelTextError::InvalidToken { line: 2, floor: 0, row: 0, col: 0 })
    ));
}

#[test]
fn a_rejected_text_leaves_the_chunk_alone() {
    let mut chunk = HypermapChunk::new(&CellType::Road);
    assert!(apply_level_geometry_text(&mut chunk, "# floor 0\n").is_err());
    assert_eq!(*chunk.get_local(LocalCoord::new(0, 0)), CellType::Road);
    apply_level_geometry_text(&mut chunk, "").unwrap();
    assert_eq!(*chunk.get_local(LocalCoord::new(0, 0)), CellType::Void);
    let mut other = HypermapChunk::new(&CellType::Road);
    clear_chunk_all_void(&mut other);
    assert_eq!(*other.get_local_floor(LocalCoord::new(127, 127), 9), CellType::Void);
}

#[test]
fn faults_of_a_text_floor_are_told() {
    let fault = |text: &str| WorldMapFloor::from_ascii(text).unwrap_err();
    assert_eq!(fault("\n  \n"), MapParseError::Empty);
    assert_eq!(fault("____\n__\n"), MapParseError::UnevenRow { row: 1 });
    assert_eq!(fault("_\n"), MapParseError::UnevenRow { row: 0 });
    assert_eq!(fault("____\n__??\n"), MapParseError::UnknownToken { row: 1, column: 1 });
    assert_eq!(fault(">A__\n"), MapParseError::UnknownToken { row: 0, column: 0 });
    let floor = WorldMapFloor::from_ascii("\n  __wn\n  ..c2\n").unwrap();
    assert_eq!((floor.width(), floor.height()), (2, 2));
    assert_eq!(floor.get(0, 0), Some(CellType::Road));
    assert_eq!(floor.get(1, 1), Some(CellType::Corner(WallCorner::Ne)));
    assert_eq!(floor.get(2, 0), None);
    let (_, marks) = WorldMapFloor::from_ascii_with_path_markers("__>B\n>A>A\n").unwrap();
    assert_eq!((marks.path_a, marks.path_b), (Some((0, 1)), Some((1, 0))));
}

#[test]
fn files_have_their_places() {
    assert_eq!(LevelName::default().0, "default");
    assert_eq!(
        chunk_geometry_path("town", ChunkCoord::new(-3, 12)),
        "levels/level_town/geometry/-3_12.txt"
    );
    assert_eq!(
        chunk_style_wall_path("town", ChunkCoord::new(0, -1)),
        "levels/level_town/style_wall/0_-1.txt"
    );
    let mut map = Hypermap::new(CellType::Void);
    map.set(0, 0, CellType::Road);
    map.set(200, 0, CellType::Road);
    let here = ChunkCoord::new(0, 0);
    let files = level_geometry_files("t", &map, &vec![here, ChunkCoord::new(9, 9)]);
    assert_eq!(files.len(), 1);
    assert_eq!(files[0].0, "levels/level_t/geometry/0_0.txt");
    assert_eq!(files[0].1, encode_chunk_geometry(map.get_chunk(here).unwrap()));
    assert_eq!(all_level_geometry_files("t", &map).len(), 2);
    let mut styles = Hypermap::new(TileStyle::DEFAULT);
    styles.set(0, 0, TileStyle::DEFAULT);
    assert!(level_floor_style_files("t", &styles, &vec![here]).is_empty());
    styles.set(0, 0, TileStyle::FLOOR_GLASS);
    assert_eq!(level_floor_style_files("t", &styles, &vec![here]).len(), 1);
}

#[test]
fn a_new_level_starts_on_open_road() {
    let (path, text) = new_level_origin_file("x");
    assert_eq!(path, "levels/level_x/geometry/0_0.txt");
    let mut chunk = HypermapChunk::new(&CellType::Void);
    apply_level_geometry_text(&mut chunk, &text).unwrap();
    assert_eq!(*chunk.get_local(LocalCoord::new(64, 100)), CellType::Road);
    assert_eq!(*chunk.get_local_floor(LocalCoord::new(64, 100), 1), CellType::Void);
}

#[test]
fn new_levels_take_the_first_free_number() {
    assert_eq!(pick_new_level_name(&vec![]), "new_001");
    let taken = vec!["new_001".to_string(), "town".to_string(), "new_002".to_string()];
    assert_eq!(pick_new_level_name(&taken), "new_003");
    let many: Vec<String> = (1..100).map(|n| format!("new_{n:03}")).collect();
    assert_eq!(pick_new_level_name(&many), "new_100");
}
