//! Which mesh draws which cell, told by the maps themselves: the cell, its floor style and its
//! wall style.
use vstd::prelude::*;

use crate::map::hypermap::{floor_in_range, ChunkCoord, Hypermap, LocalCoord};
use crate::map::hypermap_world::render_cells::{
    bucket_of, drawn_in, ground_cells, index_of, inner_void, layer_style, place_of, shows_chunk,
    upper_cells, FloorBucket, MeshKind, PreparedChunkRender, StyledCell,
};
use crate::map::world_map::{CellType, TileStyle};

verus! {

proof fn lemma_ground(snapshot: Seq<StyledCell>, kind: MeshKind, n: nat, x: i32, y: i32, c: CellType)
    requires
        n <= 163_840,
        0 <= x < 128,
        0 <= y < 128,
    ensures
        ground_cells(snapshot, kind, n).contains((x, y, c)) <==> {
            let i = (y * 128 + x) * 10;
            i < n && drawn_in(kind, snapshot[i]) && snapshot[i].0 == c
        },
    decreases n,
{
    let all = ground_cells(snapshot, kind, n);
    if n > 0 {
        lemma_ground(snapshot, kind, (n - 1) as nat, x, y, c);
        let before = ground_cells(snapshot, kind, (n - 1) as nat);
        let (u, w, f) = place_of(n - 1);
        assert(n - 1 == (w * 128 + u) * 10 + f && 0 <= u < 128 && 0 <= w < 128 && 0 <= f < 10);
        if before.contains((x, y, c)) {
            let k = choose|k: int| 0 <= k < before.len() && before[k] == (x, y, c);
            assert(all[k] == (x, y, c));
        }
        if f == 0 && drawn_in(kind, snapshot[n - 1]) {
            let here = (u as i32, w as i32, snapshot[n - 1].0);
            assert(all[before.len() as int] == here);
        }
        if all.contains((x, y, c)) {
            let k = choose|k: int| 0 <= k < all.len() && all[k] == (x, y, c);
            if k < before.len() {
                assert(before[k] == (x, y, c));
            }
        }
    }
}

proof fn lemma_upper(
    snapshot: Seq<StyledCell>,
    kind: MeshKind,
    active: int,
    n: nat,
    x: i32,
    y: i32,
    floor: i32,
    c: CellType,
)
    requires
        n <= 163_840,
        0 <= x < 128,
        0 <= y < 128,
        0 <= floor < 10,
    ensures
        upper_cells(snapshot, kind, active, n).contains((x, y, floor, c)) <==> {
            let i = (y * 128 + x) * 10 + floor;
            floor != 0 && floor == active && i < n && drawn_in(kind, snapshot[i]) && snapshot[i].0
                == c
        },
    decreases n,
{
    let all = upper_cells(snapshot, kind, active, n);
    let it = (x, y, floor, c);
    if n > 0 {
        lemma_upper(snapshot, kind, active, (n - 1) as nat, x, y, floor, c);
        let before = upper_cells(snapshot, kind, active, (n - 1) as nat);
        let (u, w, f) = place_of(n - 1);
        assert(n - 1 == (w * 128 + u) * 10 + f && 0 <= u < 128 && 0 <= w < 128 && 0 <= f < 10);
        if before.contains(it) {
            let k = choose|k: int| 0 <= k < before.len() && before[k] == it;
            assert(all[k] == it);
        }
        if f != 0 && f == active && drawn_in(kind, snapshot[n - 1]) {
            let here = (u as i32, w as i32, f as i32, snapshot[n - 1].0);
            assert(all[before.len() as int] == here);
        }
        if all.contains(it) {
            let k = choose|k: int| 0 <= k < all.len() && all[k] == it;
            if k < before.len() {
                assert(before[k] == it);
            }
        }
    }
}

/// The style of a place: what the layer holds there, or regular in a chunk that it does not
/// hold.
pub open spec fn style_there(
    layer: Hypermap<TileStyle>,
    coord: ChunkCoord,
    l: LocalCoord,
    f: int,
) -> TileStyle {
    if layer.has(coord) {
        layer.chunk(coord).at(l, f)
    } else {
        TileStyle::Regular
    }
}

/// A cell of the ground floor is drawn by its styles: its floor goes to the glass, pavement or
/// marble mesh just where its floor style says so, and to the road mesh otherwise; if it is a
/// wall or pillar, that goes to the glass wall mesh just where its wall style says so, and to
/// the wall mesh otherwise. Void is drawn nowhere.
pub proof fn ground_is_drawn_by_its_styles(
    prepared: PreparedChunkRender,
    snapshot: Seq<StyledCell>,
    map: Hypermap<CellType>,
    floors: Hypermap<TileStyle>,
    walls: Hypermap<TileStyle>,
    coord: ChunkCoord,
    active: int,
    l: LocalCoord,
    c: CellType,
)
    requires
        shows_chunk(snapshot, map, floors, walls, coord),
        prepared.sorts(snapshot, active, 163_840),
        l.in_chunk(),
    ensures
        ({
            let cell = map.chunk(coord).at(l, 0);
            let floor = style_there(floors, coord, l, 0);
            let wall = style_there(walls, coord, l, 0);
            let it = (l.x, l.y, c);
            let shown = c == cell && cell != CellType::Void;
            let stands = shown && (cell is Wall || cell is Corner);
            &&& prepared.floor0_glass_floor_cells@.contains(it) <==> shown && floor
                == TileStyle::FloorGlass
            &&& prepared.floor0_pavement_cells@.contains(it) <==> shown && floor
                == TileStyle::FloorPavement
            &&& prepared.floor0_marble_cells@.contains(it) <==> shown && floor
                == TileStyle::FloorMarble
            &&& prepared.floor0_road_cells@.contains(it) <==> shown && (floor == TileStyle::Regular
                || floor == TileStyle::WallGlass)
            &&& prepared.floor0_glass_cells@.contains(it) <==> stands && wall
                == TileStyle::WallGlass
            &&& prepared.floor0_wall_cells@.contains(it) <==> stands && wall != TileStyle::WallGlass
        }),
{
    let i = (l.y * 128 + l.x) * 10;
    assert(index_of(l.x as int, l.y as int, 0) == i);
    assert(snapshot[i] == (
        map.chunk(coord).at(l, 0),
        layer_style(floors, coord, l, 0),
        layer_style(walls, coord, l, 0),
    ));
    lemma_ground(snapshot, MeshKind::Floor(FloorBucket::Glass), 163_840, l.x, l.y, c);
    lemma_ground(snapshot, MeshKind::Floor(FloorBucket::Pavement), 163_840, l.x, l.y, c);
    lemma_ground(snapshot, MeshKind::Floor(FloorBucket::Marble), 163_840, l.x, l.y, c);
    lemma_ground(snapshot, MeshKind::Floor(FloorBucket::Road), 163_840, l.x, l.y, c);
    lemma_ground(snapshot, MeshKind::Slab(true), 163_840, l.x, l.y, c);
    lemma_ground(snapshot, MeshKind::Slab(false), 163_840, l.x, l.y, c);
    assert(prepared.ground(MeshKind::Floor(FloorBucket::Glass))
        == prepared.floor0_glass_floor_cells@);
    assert(prepared.ground(MeshKind::Floor(FloorBucket::Pavement))
        == prepared.floor0_pavement_cells@);
    assert(prepared.ground(MeshKind::Floor(FloorBucket::Marble)) == prepared.floor0_marble_cells@);
    assert(prepared.ground(MeshKind::Floor(FloorBucket::Road)) == prepared.floor0_road_cells@);
    assert(prepared.ground(MeshKind::Slab(true)) == prepared.floor0_glass_cells@);
    assert(prepared.ground(MeshKind::Slab(false)) == prepared.floor0_wall_cells@);
}

/// A cell of an upper floor is drawn by its styles in the same way, and only while its floor is
/// the active one.
pub proof fn upper_floors_are_drawn_by_their_styles(
    prepared: PreparedChunkRender,
    snapshot: Seq<StyledCell>,
    map: Hypermap<CellType>,
    floors: Hypermap<TileStyle>,
    walls: Hypermap<TileStyle>,
    coord: ChunkCoord,
    active: int,
    l: LocalCoord,
    f: i32,
    c: CellType,
)
    requires
        shows_chunk(snapshot, map, floors, walls, coord),
        prepared.sorts(snapshot, active, 163_840),
        l.in_chunk(),
        0 <= f < 10,
    ensures
        ({
            let cell = map.chunk(coord).at(l, f as int);
            let floor = style_there(floors, coord, l, f as int);
            let wall = style_there(walls, coord, l, f as int);
            let it = (l.x, l.y, f, c);
            let shown = f > 0 && f == active && c == cell && cell != CellType::Void;
            let stands = shown && (cell is Wall || cell is Corner);
            &&& prepared.upper_road_glass_cells@.contains(it) <==> shown && floor
                == TileStyle::FloorGlass
            &&& prepared.upper_road_pavement_cells@.contains(it) <==> shown && floor
                == TileStyle::FloorPavement
            &&& prepared.upper_road_marble_cells@.contains(it) <==> shown && floor
                == TileStyle::FloorMarble
            &&& prepared.upper_road_default_cells@.contains(it) <==> shown && (floor
                == TileStyle::Regular || floor == TileStyle::WallGlass)
            &&& prepared.upper_glass_cells@.contains(it) <==> stands && wall == TileStyle::WallGlass
            &&& prepared.upper_cells@.contains(it) <==> stands && wall != TileStyle::WallGlass
        }),
{
    let i = (l.y * 128 + l.x) * 10 + f;
    assert(floor_in_range(f as int));
    assert(index_of(l.x as int, l.y as int, f as int) == i);
    assert(snapshot[i] == (
        map.chunk(coord).at(l, f as int),
        layer_style(floors, coord, l, f as int),
        layer_style(walls, coord, l, f as int),
    ));
    lemma_upper(snapshot, MeshKind::Floor(FloorBucket::Glass), active, 163_840, l.x, l.y, f, c);
    lemma_upper(snapshot, MeshKind::Floor(FloorBucket::Pavement), active, 163_840, l.x, l.y, f, c);
    lemma_upper(snapshot, MeshKind::Floor(FloorBucket::Marble), active, 163_840, l.x, l.y, f, c);
    lemma_upper(snapshot, MeshKind::Floor(FloorBucket::Road), active, 163_840, l.x, l.y, f, c);
    lemma_upper(snapshot, MeshKind::Slab(true), active, 163_840, l.x, l.y, f, c);
    lemma_upper(snapshot, MeshKind::Slab(false), active, 163_840, l.x, l.y, f, c);
    assert(prepared.upper(MeshKind::Floor(FloorBucket::Glass)) == prepared.upper_road_glass_cells@);
    assert(prepared.upper(MeshKind::Floor(FloorBucket::Pavement))
        == prepared.upper_road_pavement_cells@);
    assert(prepared.upper(MeshKind::Floor(FloorBucket::Marble))
        == prepared.upper_road_marble_cells@);
    assert(prepared.upper(MeshKind::Floor(FloorBucket::Road))
        == prepared.upper_road_default_cells@);
    assert(prepared.upper(MeshKind::Slab(true)) == prepared.upper_glass_cells@);
    assert(prepared.upper(MeshKind::Slab(false)) == prepared.upper_cells@);
}

/// Water is shown just where the ground floor has void at least two cells from every border of
/// the chunk.
pub proof fn water_lies_off_the_borders(
    prepared: PreparedChunkRender,
    snapshot: Seq<StyledCell>,
    map: Hypermap<CellType>,
    floors: Hypermap<TileStyle>,
    walls: Hypermap<TileStyle>,
    coord: ChunkCoord,
    active: int,
)
    requires
        shows_chunk(snapshot, map, floors, walls, coord),
        prepared.sorts(snapshot, active, 163_840),
    ensures
        prepared.has_void_floor0_water <==> exists|l: LocalCoord|
            2 <= l.x && l.x + 2 < 128 && 2 <= l.y && l.y + 2 < 128 && #[trigger] map.chunk(coord).at(
                l,
                0,
            ) == CellType::Void,
{
    if prepared.has_void_floor0_water {
        let i = choose|i: int| 0 <= i < 163_840 && #[trigger] inner_void(snapshot, i);
        let (x, y, f) = place_of(i);
        let l = LocalCoord { x: x as i32, y: y as i32 };
        assert(index_of(x, y, 0) == i);
        assert(snapshot[index_of(l.x as int, l.y as int, 0)].0 == map.chunk(coord).at(l, 0));
    }
    if exists|l: LocalCoord|
        2 <= l.x && l.x + 2 < 128 && 2 <= l.y && l.y + 2 < 128 && #[trigger] map.chunk(coord).at(
            l,
            0,
        ) == CellType::Void {
        let l = choose|l: LocalCoord|
            2 <= l.x && l.x + 2 < 128 && 2 <= l.y && l.y + 2 < 128 && #[trigger] map.chunk(
                coord,
            ).at(l, 0) == CellType::Void;
        let i = index_of(l.x as int, l.y as int, 0);
        assert(snapshot[index_of(l.x as int, l.y as int, 0)].0 == map.chunk(coord).at(l, 0));
        assert(place_of(i) == (l.x as int, l.y as int, 0int));
        assert(inner_void(snapshot, i));
    }
}

/// Every style has one floor material: glass, pavement and marble their own, all others road.
pub proof fn floor_styles_have_one_material(style: TileStyle)
    ensures
        bucket_of(style) == FloorBucket::Glass <==> style == TileStyle::FloorGlass,
        bucket_of(style) == FloorBucket::Pavement <==> style == TileStyle::FloorPavement,
        bucket_of(style) == FloorBucket::Marble <==> style == TileStyle::FloorMarble,
{
}

} // verus!
