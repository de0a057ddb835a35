//! The chunked tile store.
use everly::map::hypermap::{
    world_to_chunk_local, ChunkCoord, DoubleBufferedHypermap, Hypermap, LocalCoord,
};

#[test]
fn hypermap_maps_negative_world_coords_to_correct_chunk_and_local() {
    let (chunk, local) = world_to_chunk_local(-1, -1);
    assert_eq!(chunk, ChunkCoord::new(-1, -1));
    assert_eq!(local, LocalCoord::new(127, 127));

    let (chunk, local) = world_to_chunk_local(-128, -128);
    assert_eq!(chunk, ChunkCoord::new(-1, -1));
    assert_eq!(local, LocalCoord::new(0, 0));

    let (chunk, local) = world_to_chunk_local(-129, 128);
    assert_eq!(chunk, ChunkCoord::new(-2, 1));
    assert_eq!(local, LocalCoord::new(127, 0));
}

#[test]
fn hypermap_reads_default_from_unallocated_space() {
    let map = Hypermap::new(7i32);
    assert_eq!(map.get(10_000, -10_000), 7);
    assert_eq!(map.loaded_chunk_count(), 0);
}

#[test]
fn hypermap_allocates_chunks_lazily_on_write() {
    let mut map = Hypermap::new(0i32);
    map.set(0, 0, 1);
    map.set(200, 0, 2);
    map.set(-200, -200, 3);

    assert_eq!(map.get(0, 0), 1);
    assert_eq!(map.get(200, 0), 2);
    assert_eq!(map.get(-200, -200), 3);
    assert_eq!(map.loaded_chunk_count(), 3);
}

#[test]
fn hypermap_reads_and_writes_upper_floors_independently() {
    let mut map = Hypermap::new(0u8);
    map.set_floor(5, 5, 0, 1);
    map.set_floor(5, 5, 3, 2);
    assert_eq!(map.get_floor(5, 5, 0), 1);
    assert_eq!(map.get_floor(5, 5, 1), 0);
    assert_eq!(map.get_floor(5, 5, 3), 2);
    assert_eq!(map.get(5, 5), 1);
}

// --- DoubleBufferedHypermap ---

#[test]
fn double_buf_reads_default_before_flush() {
    let mut db = DoubleBufferedHypermap::new(0i32);
    db.set(5, 5, 42);
    assert_eq!(db.get(5, 5), 0, "read side untouched before flush");
}

#[test]
fn double_buf_flush_promotes_writes_to_read() {
    let mut db = DoubleBufferedHypermap::new(0i32);
    db.set(10, 10, 99);
    db.set_floor(10, 10, 2, 77);
    db.flush();

    assert_eq!(db.get(10, 10), 99);
    assert_eq!(db.get_floor(10, 10, 2), 77);
}

#[test]
fn double_buf_write_resets_after_flush() {
    let mut db = DoubleBufferedHypermap::new(0i32);
    db.set(1, 1, 5);
    db.flush();
    assert_eq!(db.get(1, 1), 5);

    db.flush();
    assert_eq!(db.get(1, 1), 0, "second flush with no new writes resets read to default");
}

#[test]
fn double_buf_loaded_chunks_reflects_read_side() {
    let mut db = DoubleBufferedHypermap::new(0i32);
    assert_eq!(db.loaded_chunk_count(), 0);

    db.set(0, 0, 1);
    assert_eq!(db.loaded_chunk_count(), 0, "write-side chunk not counted on read");

    db.flush();
    assert_eq!(db.loaded_chunk_count(), 1);
}

#[test]
fn double_buf_flush_merge_preserves_untouched_read_chunks() {
    let mut db = DoubleBufferedHypermap::new(0i32);
    db.read_map_mut().set(0, 0, 11);
    db.write_map_mut().set(200, 0, 22);
    db.flush_merge();

    assert_eq!(db.get(0, 0), 11);
    assert_eq!(db.get(200, 0), 22);
    assert_eq!(db.write_map().loaded_chunk_count(), 0);
}
