//! Small towns.
use everly::map::hypermap::ChunkCoord;
use everly::map::neighborhood::{
    build_town, fill_chunk_neighborhood, hash_chunk_seed, houses_on, is_in_block_dead_zone,
    roll_houses, roll_lots, select_horizontal_side, target_blocks_for, world_to_block_local, Block,
    BlockLocal, HorizontalSide, House, Lot, Plot, Rooms,
};
use everly::map::world_map::{CellType, MASK_EAST, MASK_NORTH, MASK_SOUTH, MASK_WEST};
use rand::rngs::StdRng;
use rand::SeedableRng;

#[test]
fn maps_negative_world_coords_to_correct_chunk_and_local() {
    let (chunk, local) = world_to_block_local(-1, -1);
    assert_eq!(chunk, ChunkCoord::new(-1, -1));
    assert_eq!(local, BlockLocal::new(63, 63));

    let (chunk, local) = world_to_block_local(-64, -64);
    assert_eq!(chunk, ChunkCoord::new(-1, -1));
    assert_eq!(local, BlockLocal::new(0, 0));

    let (chunk, local) = world_to_block_local(-65, 64);
    assert_eq!(chunk, ChunkCoord::new(-2, 1));
    assert_eq!(local, BlockLocal::new(63, 0));
}

fn slabs(block: &Block, x: i32, y: i32) -> u8 {
    match block.get(x, y) {
        CellType::Wall(mask) => mask.bits(),
        _ => 0,
    }
}

#[test]
fn a_house_has_outer_walls_a_door_and_partitions() {
    let plot = Plot { x0: 2, y0: 2, w: 14, h: 12 };
    let rooms = Rooms::FourQuad { wall_x: 8, door_y: 4, wall_y: 7, door_x: 5 };
    let block = build_town(&vec![House { plot, rooms }]);
    assert_eq!(slabs(&block, 2, 2), MASK_NORTH | MASK_WEST);
    assert_eq!(slabs(&block, 15, 13), MASK_SOUTH | MASK_EAST);
    assert_eq!(slabs(&block, 9, 2), MASK_NORTH);
    assert_eq!(block.get(8, 13), CellType::Road, "the door");
    assert_eq!(slabs(&block, 8, 5), MASK_EAST);
    assert_eq!(slabs(&block, 9, 5), MASK_WEST);
    assert_eq!(block.get(8, 4), CellType::Road, "a door between rooms");
    assert_eq!(slabs(&block, 8, 7), MASK_SOUTH | MASK_EAST);
    assert_eq!(slabs(&block, 9, 7), MASK_SOUTH | MASK_WEST);
    assert_eq!(slabs(&block, 4, 7), MASK_SOUTH);
    assert_eq!(block.get(5, 7), CellType::Road, "a door between rooms");
    assert_eq!(block.get(1, 30), CellType::Void);
    assert_eq!(block.get(40, 40), CellType::Road);
}

#[test]
fn an_el_has_a_wall_in_its_east_wing() {
    let plot = Plot { x0: 10, y0: 10, w: 14, h: 12 };
    let rooms = Rooms::ThreeEl { wall_x: 14, door_y: 12, wall_y: 15, door_x: 20 };
    let block = build_town(&vec![House { plot, rooms }]);
    assert_eq!(slabs(&block, 14, 15), MASK_EAST);
    assert_eq!(slabs(&block, 15, 15), MASK_SOUTH);
    assert_eq!(slabs(&block, 19, 15), MASK_SOUTH);
    assert_eq!(block.get(20, 15), CellType::Road);
    assert_eq!(block.get(13, 15), CellType::Road);
}

#[test]
fn towns_keep_their_shore_and_every_house_a_door() {
    let mut seen = 0;
    for x in -3..3 {
        let (block, houses) = fill_chunk_neighborhood(ChunkCoord::new(x, 7));
        for i in 0..64 {
            assert_eq!(block.get(i, 0), CellType::Void);
            assert_eq!(block.get(63, i), CellType::Void);
        }
        for house in &houses {
            let p = house.plot;
            assert_eq!(block.get((p.x0 + p.x1()) / 2, p.y1()), CellType::Road);
            assert!(slabs(&block, p.x0, p.y0) == MASK_NORTH | MASK_WEST);
        }
        seen += houses.len();
    }
    assert!(seen > 0, "some block has houses");
}

#[test]
fn empty_lots_get_no_house() {
    let rooms = Rooms::TwoVertical { wall_x: 7, door_y: 7 };
    let a = Plot { x0: 2, y0: 2, w: 14, h: 12 };
    let b = Plot { x0: 2, y0: 16, w: 14, h: 12 };
    let c = Plot { x0: 2, y0: 30, w: 14, h: 12 };
    let lots = vec![
        Lot { plot: a, rooms: Some(rooms) },
        Lot { plot: b, rooms: None },
        Lot { plot: c, rooms: Some(rooms) },
    ];
    assert_eq!(houses_on(&lots), vec![House { plot: a, rooms }, House { plot: c, rooms }]);
    assert_eq!(houses_on(&Vec::new()), Vec::new());
}

#[test]
fn lots_divide_the_whole_town() {
    let mut empty = 0;
    for seed in 0..20 {
        let mut rng = StdRng::seed_from_u64(seed);
        let lots = roll_lots(&mut rng);
        assert_eq!((lots[0].plot.x0, lots[0].plot.y0), (2, 2));
        for pair in lots.windows(2) {
            let (a, b) = (pair[0].plot, pair[1].plot);
            if b.x0 == a.x0 {
                assert_eq!((b.w, b.y0), (a.w, a.y0 + a.h + 2));
            } else {
                assert_eq!((b.x0, b.y0), (a.x0 + a.w + 2, 2));
                assert!(a.y0 + a.h + 2 + 22 > 62);
            }
        }
        let last = lots[lots.len() - 1].plot;
        assert!(last.y0 + last.h + 2 + 22 > 62);
        assert!(last.x0 + last.w + 2 + 20 > 62);
        empty += lots.iter().filter(|lot| lot.rooms.is_none()).count();

        let mut again = StdRng::seed_from_u64(seed);
        assert_eq!(roll_houses(&mut again), houses_on(&lots));
    }
    assert!(empty > 0, "some lot stays empty");
}

#[test]
fn a_town_depends_on_its_place_alone() {
    let (_, a) = fill_chunk_neighborhood(ChunkCoord::new(4, -9));
    let (_, b) = fill_chunk_neighborhood(ChunkCoord::new(4, -9));
    assert_eq!(a, b);
}

#[test]
fn seeds_spread_the_coordinates() {
    assert_eq!(hash_chunk_seed(ChunkCoord::new(0, 0)), 0xA32D_192E_2AA3_4C13);
    assert_eq!(
        hash_chunk_seed(ChunkCoord::new(1, 0)),
        0x9E37_79B9_85F3_7D87 ^ 0xA32D_192E_2AA3_4C13
    );
    assert_eq!(
        hash_chunk_seed(ChunkCoord::new(0, -1)),
        0xC2B2_AE3D_27D4_F4F5u64.wrapping_neg() ^ 0xA32D_192E_2AA3_4C13
    );
}

#[test]
fn the_nearer_side_is_shown() {
    assert_eq!(select_horizontal_side(31, HorizontalSide::East), HorizontalSide::West);
    assert_eq!(select_horizontal_side(32, HorizontalSide::West), HorizontalSide::East);
    let targets = target_blocks_for(ChunkCoord::new(5, 5), HorizontalSide::West);
    assert_eq!(
        targets,
        vec![
            ChunkCoord::new(5, 5),
            ChunkCoord::new(5, 4),
            ChunkCoord::new(4, 5),
            ChunkCoord::new(4, 4)
        ]
    );
    assert!(is_in_block_dead_zone(BlockLocal::new(22, 41)));
    assert!(!is_in_block_dead_zone(BlockLocal::new(21, 30)));
}
