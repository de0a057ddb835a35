//! The level text format.
use everly::map::hypermap::{ChunkCoord, Hypermap, LocalCoord};
use everly::map::level::{apply_level_geometry_text, encode_chunk_geometry};
use everly::map::world_map::{CellType, WallMask, MASK_NORTH};

#[test]
fn encode_decode_roundtrip_single_floor() {
    let mut map = Hypermap::new(CellType::Void);
    map.with_chunk_write(ChunkCoord::new(0, 0), |c| {
        c.set_local(LocalCoord::new(0, 0), CellType::Road);
        c.set_local(
            LocalCoord::new(1, 0),
            CellType::Wall(WallMask::from_bits(MASK_NORTH).unwrap()),
        );
    });
    let enc = map
        .with_chunk_read(ChunkCoord::new(0, 0), |c| encode_chunk_geometry(c))
        .unwrap();
    let mut map2 = Hypermap::new(CellType::Road);
    map2.with_chunk_write(ChunkCoord::new(0, 0), |c| {
        apply_level_geometry_text(c, &enc).unwrap();
        assert_eq!(*c.get_local(LocalCoord::new(0, 0)), CellType::Road);
        assert!(matches!(
            *c.get_local(LocalCoord::new(1, 0)),
            CellType::Wall(_)
        ));
    });
}
