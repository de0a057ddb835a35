//! Sorts the cells of one chunk by the mesh that draws them.
use vstd::prelude::*;

use crate::map::hypermap::{
    floor_in_range, ChunkCoord, Hypermap, HypermapChunk, LocalCoord, HYPERMAP_CHUNK_SIZE,
};
use crate::map::map_generator::types::CHUNK_VOID_MARGIN;
use crate::map::world_map::{CellType, TileStyle};

verus! {

/// Floor-0 void must fall inside this inset (local cell coords) before a water
/// plane is shown; nothing is drawn in the chunk border band.
pub const WATER_MESH_EDGE_STRIP: i32 = CHUNK_VOID_MARGIN;

/// Cells of one chunk over all floors.
const SNAPSHOT_LEN: usize = 163_840;

/// A cell with the style of its floor quad and of its wall slabs.
pub type StyledCell = (CellType, TileStyle, TileStyle);

/// Floor material of a cell.
#[derive(Debug, Clone, Copy, PartialEq, Eq, Structural)]
pub enum FloorBucket {
    Road,
    Glass,
    Pavement,
    Marble,
}

/// The floor material that a style stands for: road unless the style names another.
pub open spec fn bucket_of(style: TileStyle) -> FloorBucket {
    match style {
        TileStyle::FloorGlass => FloorBucket::Glass,
        TileStyle::FloorPavement => FloorBucket::Pavement,
        TileStyle::FloorMarble => FloorBucket::Marble,
        _ => FloorBucket::Road,
    }
}

pub fn floor_bucket(style: TileStyle) -> (bucket: FloorBucket)
    ensures
        bucket == bucket_of(style),
{
    match style {
        TileStyle::FloorGlass => FloorBucket::Glass,
        TileStyle::FloorPavement => FloorBucket::Pavement,
        TileStyle::FloorMarble => FloorBucket::Marble,
        _ => FloorBucket::Road,
    }
}

pub fn wall_is_glass(style: TileStyle) -> (glass: bool)
    ensures
        glass == (style == TileStyle::WallGlass),
{
    matches!(style, TileStyle::WallGlass)
}

/// What a mesh draws: floor quads of one material, or wall slabs that are glass or not.
#[derive(Debug, Clone, Copy, PartialEq, Eq, Structural)]
pub enum MeshKind {
    Floor(FloorBucket),
    Slab(bool),
}

/// Whether the cell carries wall slabs or a pillar.
pub open spec fn has_slab(cell: CellType) -> bool {
    cell is Wall || cell is Corner
}

/// Whether a cell belongs in a mesh of the given kind. Void is in none.
pub open spec fn drawn_in(kind: MeshKind, s: StyledCell) -> bool {
    s.0 !is Void && match kind {
        MeshKind::Floor(bucket) => bucket_of(s.1) == bucket,
        MeshKind::Slab(glass) => has_slab(s.0) && (s.2 == TileStyle::WallGlass) == glass,
    }
}

/// Column, row and floor of the cell at place `i` of a snapshot: floors run fastest,
/// then columns, then rows.
pub open spec fn place_of(i: int) -> (int, int, int) {
    ((i / 10) % 128, i / 1280, i % 10)
}

/// The place of a cell in a snapshot.
pub open spec fn index_of(x: int, y: int, floor: int) -> int {
    (y * 128 + x) * 10 + floor
}

proof fn lemma_place(x: int, y: int, floor: int)
    requires
        0 <= x < 128,
        0 <= y < 128,
        0 <= floor < 10,
    ensures
        place_of(index_of(x, y, floor)) == (x, y, floor),
        0 <= index_of(x, y, floor) < SNAPSHOT_LEN,
{
}

/// The ground-floor cells among the first `n` that a mesh of the given kind draws, in
/// snapshot order.
pub open spec fn ground_cells(snapshot: Seq<StyledCell>, kind: MeshKind, n: nat) -> Seq<
    (i32, i32, CellType),
>
    decreases n,
{
    if n == 0 {
        seq![]
    } else {
        let before = ground_cells(snapshot, kind, (n - 1) as nat);
        let (x, y, floor) = place_of(n - 1);
        if floor == 0 && drawn_in(kind, snapshot[n - 1]) {
            before.push((x as i32, y as i32, snapshot[n - 1].0))
        } else {
            before
        }
    }
}

/// The cells of the active upper floor among the first `n` that a mesh of the given kind
/// draws, in snapshot order. The ground floor is never an upper floor.
pub open spec fn upper_cells(
    snapshot: Seq<StyledCell>,
    kind: MeshKind,
    active_floor: int,
    n: nat,
) -> Seq<(i32, i32, i32, CellType)>
    decreases n,
{
    if n == 0 {
        seq![]
    } else {
        let before = upper_cells(snapshot, kind, active_floor, (n - 1) as nat);
        let (x, y, floor) = place_of(n - 1);
        if floor != 0 && floor == active_floor && drawn_in(kind, snapshot[n - 1]) {
            before.push((x as i32, y as i32, floor as i32, snapshot[n - 1].0))
        } else {
            before
        }
    }
}

/// Whether place `i` is ground-floor void inside the border band.
pub open spec fn inner_void(snapshot: Seq<StyledCell>, i: int) -> bool {
    let (x, y, floor) = place_of(i);
    let w = WATER_MESH_EDGE_STRIP;
    floor == 0 && snapshot[i].0 is Void && w <= x < 128 - w && w <= y < 128 - w
}

/// The cells of one chunk, sorted by mesh.
#[derive(Debug)]
pub struct PreparedChunkRender {
    /// True when floor `0` has void strictly inside [`WATER_MESH_EDGE_STRIP`] from each
    /// chunk edge.
    pub has_void_floor0_water: bool,
    pub floor0_road_cells: Vec<(i32, i32, CellType)>,
    pub floor0_glass_floor_cells: Vec<(i32, i32, CellType)>,
    pub floor0_pavement_cells: Vec<(i32, i32, CellType)>,
    pub floor0_marble_cells: Vec<(i32, i32, CellType)>,
    pub floor0_wall_cells: Vec<(i32, i32, CellType)>,
    pub floor0_glass_cells: Vec<(i32, i32, CellType)>,
    pub upper_cells: Vec<(i32, i32, i32, CellType)>,
    pub upper_glass_cells: Vec<(i32, i32, i32, CellType)>,
    pub upper_road_default_cells: Vec<(i32, i32, i32, CellType)>,
    pub upper_road_glass_cells: Vec<(i32, i32, i32, CellType)>,
    pub upper_road_pavement_cells: Vec<(i32, i32, i32, CellType)>,
    pub upper_road_marble_cells: Vec<(i32, i32, i32, CellType)>,
}

impl PreparedChunkRender {
    /// The ground-floor list of a mesh.
    pub open spec fn ground(self, kind: MeshKind) -> Seq<(i32, i32, CellType)> {
        match kind {
            MeshKind::Floor(FloorBucket::Road) => self.floor0_road_cells@,
            MeshKind::Floor(FloorBucket::Glass) => self.floor0_glass_floor_cells@,
            MeshKind::Floor(FloorBucket::Pavement) => self.floor0_pavement_cells@,
            MeshKind::Floor(FloorBucket::Marble) => self.floor0_marble_cells@,
            MeshKind::Slab(true) => self.floor0_glass_cells@,
            MeshKind::Slab(false) => self.floor0_wall_cells@,
        }
    }

    /// The upper-floor list of a mesh.
    pub open spec fn upper(self, kind: MeshKind) -> Seq<(i32, i32, i32, CellType)> {
        match kind {
            MeshKind::Floor(FloorBucket::Road) => self.upper_road_default_cells@,
            MeshKind::Floor(FloorBucket::Glass) => self.upper_road_glass_cells@,
            MeshKind::Floor(FloorBucket::Pavement) => self.upper_road_pavement_cells@,
            MeshKind::Floor(FloorBucket::Marble) => self.upper_road_marble_cells@,
            MeshKind::Slab(true) => self.upper_glass_cells@,
            MeshKind::Slab(false) => self.upper_cells@,
        }
    }

    /// Whether the lists are those of the first `n` cells.
    pub open spec fn sorts(self, snapshot: Seq<StyledCell>, active_floor: int, n: nat) -> bool {
        &&& self.has_void_floor0_water == exists|i: int|
            0 <= i < n && #[trigger] inner_void(snapshot, i)
        &&& forall|kind: MeshKind| #[trigger]
            self.ground(kind) == ground_cells(snapshot, kind, n)
        &&& forall|kind: MeshKind| #[trigger]
            self.upper(kind) == upper_cells(snapshot, kind, active_floor, n)
    }

    fn add_ground(&mut self, x: i32, y: i32, s: StyledCell)
        ensures
            final(self).has_void_floor0_water == old(self).has_void_floor0_water,
            forall|kind: MeshKind| #[trigger] final(self).upper(kind) == old(self).upper(kind),
            forall|kind: MeshKind| #[trigger]
                final(self).ground(kind) == if drawn_in(kind, s) {
                    old(self).ground(kind).push((x, y, s.0))
                } else {
                    old(self).ground(kind)
                },
    {
        let (cell, floor_style, wall_style) = s;
        if matches!(cell, CellType::Void) {
            return;
        }
        match floor_bucket(floor_style) {
            FloorBucket::Glass => self.floor0_glass_floor_cells.push((x, y, cell)),
            FloorBucket::Pavement => self.floor0_pavement_cells.push((x, y, cell)),
            FloorBucket::Marble => self.floor0_marble_cells.push((x, y, cell)),
            FloorBucket::Road => self.floor0_road_cells.push((x, y, cell)),
        }
        if matches!(cell, CellType::Wall(_) | CellType::Corner(_)) {
            if wall_is_glass(wall_style) {
                self.floor0_glass_cells.push((x, y, cell));
            } else {
                self.floor0_wall_cells.push((x, y, cell));
            }
        }
    }

    fn add_upper(&mut self, x: i32, y: i32, floor: i32, s: StyledCell)
        ensures
            final(self).has_void_floor0_water == old(self).has_void_floor0_water,
            forall|kind: MeshKind| #[trigger] final(self).ground(kind) == old(self).ground(kind),
            forall|kind: MeshKind| #[trigger]
                final(self).upper(kind) == if drawn_in(kind, s) {
                    old(self).upper(kind).push((x, y, floor, s.0))
                } else {
                    old(self).upper(kind)
                },
    {
        let (cell, floor_style, wall_style) = s;
        if matches!(cell, CellType::Void) {
            return;
        }
        match floor_bucket(floor_style) {
            FloorBucket::Glass => self.upper_road_glass_cells.push((x, y, floor, cell)),
            FloorBucket::Pavement => self.upper_road_pavement_cells.push((x, y, floor, cell)),
            FloorBucket::Marble => self.upper_road_marble_cells.push((x, y, floor, cell)),
            FloorBucket::Road => self.upper_road_default_cells.push((x, y, floor, cell)),
        }
        if matches!(cell, CellType::Wall(_) | CellType::Corner(_)) {
            if wall_is_glass(wall_style) {
                self.upper_glass_cells.push((x, y, floor, cell));
            } else {
                self.upper_cells.push((x, y, floor, cell));
            }
        }
    }
}

/// Sorts a whole chunk: every ground-floor cell by its floor material and wall material,
/// and so every cell of the active upper floor; other floors are not drawn.
pub fn partition_chunk_cells_from_vec(snapshot: Vec<StyledCell>, active_floor: i32) -> (prepared:
    PreparedChunkRender)
    requires
        snapshot@.len() == 163_840,
    ensures
        prepared.sorts(snapshot@, active_floor as int, 163_840),
{
    let mut prepared = PreparedChunkRender {
        has_void_floor0_water: false,
        floor0_road_cells: Vec::new(),
        floor0_glass_floor_cells: Vec::new(),
        floor0_pavement_cells: Vec::new(),
        floor0_marble_cells: Vec::new(),
        floor0_wall_cells: Vec::new(),
        floor0_glass_cells: Vec::new(),
        upper_cells: Vec::new(),
        upper_glass_cells: Vec::new(),
        upper_road_default_cells: Vec::new(),
        upper_road_glass_cells: Vec::new(),
        upper_road_pavement_cells: Vec::new(),
        upper_road_marble_cells: Vec::new(),
    };
    let w: i32 = WATER_MESH_EDGE_STRIP;
    let sz: i32 = HYPERMAP_CHUNK_SIZE;
    let mut x: i32 = 0;
    let mut y: i32 = 0;
    let mut floor: i32 = 0;
    let mut i: usize = 0;
    while i < SNAPSHOT_LEN
        invariant
            i <= SNAPSHOT_LEN,
            snapshot@.len() == SNAPSHOT_LEN,
            w == WATER_MESH_EDGE_STRIP,
            sz == 128,
            0 <= x < 128,
            0 <= y <= 128,
            0 <= floor < 10,
            i == index_of(x as int, y as int, floor as int),
            prepared.sorts(snapshot@, active_floor as int, i as nat),
        decreases SNAPSHOT_LEN - i,
    {
        let s: StyledCell = snapshot[i];
        let ghost before = prepared;
        proof {
            assert(y < 128);
            lemma_place(x as int, y as int, floor as int);
        }
        if matches!(s.0, CellType::Void) {
            if floor == 0 {
                let interior: bool = x >= w && y >= w && x < sz - w && y < sz - w;
                if interior {
                    prepared.has_void_floor0_water = true;
                }
            }
        } else if floor == 0 {
            prepared.add_ground(x, y, s);
        } else if floor == active_floor {
            prepared.add_upper(x, y, floor, s);
        }
        proof {
            assert forall|kind: MeshKind| #[trigger]
                prepared.ground(kind) == ground_cells(snapshot@, kind, (i + 1) as nat) by {
                assert(before.ground(kind) == ground_cells(snapshot@, kind, i as nat));
            }
            assert forall|kind: MeshKind| #[trigger]
                prepared.upper(kind) == upper_cells(
                    snapshot@,
                    kind,
                    active_floor as int,
                    (i + 1) as nat,
                ) by {
                assert(before.upper(kind) == upper_cells(
                    snapshot@,
                    kind,
                    active_floor as int,
                    i as nat,
                ));
            }
            if inner_void(snapshot@, i as int) {
                assert(prepared.has_void_floor0_water);
            }
            if before.has_void_floor0_water {
                let k = choose|k: int| 0 <= k < i && #[trigger] inner_void(snapshot@, k);
                assert(inner_void(snapshot@, k) && k < i + 1);
            }
        }
        i += 1;
        floor += 1;
        if floor == 10 {
            floor = 0;
            x += 1;
            if x == 128 {
                x = 0;
                y += 1;
            }
        }
    }
    prepared
}

pub fn build_chunk_render_data(snapshot: Vec<StyledCell>, active_floor: i32) -> (prepared:
    PreparedChunkRender)
    requires
        snapshot@.len() == 163_840,
    ensures
        prepared.sorts(snapshot@, active_floor as int, 163_840),
{
    partition_chunk_cells_from_vec(snapshot, active_floor)
}

/// Whether `cells` lists every cell of the chunk in snapshot order.
pub open spec fn lists_chunk<T: Copy>(cells: Seq<T>, chunk: HypermapChunk<T>) -> bool {
    &&& cells.len() == 163_840
    &&& forall|l: LocalCoord, f: int|
        l.in_chunk() && floor_in_range(f) ==> cells[index_of(l.x as int, l.y as int, f)]
            == #[trigger] chunk.at(l, f)
}

fn clone_cells<T: Copy>(chunk: &HypermapChunk<T>) -> (cells: Vec<T>)
    requires
        chunk.wf(),
    ensures
        lists_chunk(cells@, *chunk),
{
    let mut cells: Vec<T> = Vec::with_capacity(SNAPSHOT_LEN);
    let mut x: i32 = 0;
    let mut y: i32 = 0;
    let mut floor: i32 = 0;
    let mut i: usize = 0;
    while i < SNAPSHOT_LEN
        invariant
            i <= SNAPSHOT_LEN,
            chunk.wf(),
            cells@.len() == i,
            0 <= x < 128,
            0 <= y <= 128,
            0 <= floor < 10,
            i == index_of(x as int, y as int, floor as int),
            forall|l: LocalCoord, f: int|
                l.in_chunk() && floor_in_range(f) && index_of(l.x as int, l.y as int, f) < i
                    ==> cells@[index_of(l.x as int, l.y as int, f)] == #[trigger] chunk.at(l, f),
        decreases SNAPSHOT_LEN - i,
    {
        let local = LocalCoord::new(x, y);
        cells.push(*chunk.get_local_floor(local, floor));
        i += 1;
        floor += 1;
        if floor == 10 {
            floor = 0;
            x += 1;
            if x == 128 {
                x = 0;
                y += 1;
            }
        }
    }
    cells
}

pub fn clone_chunk_for_render_start(chunk: &HypermapChunk<CellType>) -> (cells: Vec<CellType>)
    requires
        chunk.wf(),
    ensures
        lists_chunk(cells@, *chunk),
{
    clone_cells(chunk)
}

pub fn clone_styles_for_render_start(chunk: &HypermapChunk<TileStyle>) -> (styles: Vec<TileStyle>)
    requires
        chunk.wf(),
    ensures
        lists_chunk(styles@, *chunk),
{
    clone_cells(chunk)
}

/// The style that a layer shows in a chunk: regular where the chunk is not held.
pub open spec fn layer_style(
    layer: Hypermap<TileStyle>,
    coord: ChunkCoord,
    l: LocalCoord,
    f: int,
) -> TileStyle {
    if layer.has(coord) {
        layer.chunk(coord).at(l, f)
    } else {
        TileStyle::Regular
    }
}

fn clone_layer(layer: &Hypermap<TileStyle>, coord: ChunkCoord) -> (styles: Vec<TileStyle>)
    requires
        layer.wf(),
    ensures
        styles@.len() == 163_840,
        forall|l: LocalCoord, f: int|
            l.in_chunk() && floor_in_range(f) ==> styles@[index_of(l.x as int, l.y as int, f)]
                == #[trigger] layer_style(*layer, coord, l, f),
{
    match layer.get_chunk(coord) {
        Some(chunk) => clone_styles_for_render_start(chunk),
        None => {
            let mut styles: Vec<TileStyle> = Vec::with_capacity(SNAPSHOT_LEN);
            let mut i: usize = 0;
            while i < SNAPSHOT_LEN
                invariant
                    i <= SNAPSHOT_LEN,
                    styles@.len() == i,
                    forall|j: int| 0 <= j < i ==> styles@[j] == TileStyle::Regular,
                decreases SNAPSHOT_LEN - i,
            {
                styles.push(TileStyle::DEFAULT);
                i += 1;
            }
            proof {
                assert forall|l: LocalCoord, f: int|
                    l.in_chunk() && floor_in_range(f) implies styles@[index_of(
                    l.x as int,
                    l.y as int,
                    f,
                )] == #[trigger] layer_style(*layer, coord, l, f) by {
                    lemma_place(l.x as int, l.y as int, f);
                }
            }
            styles
        },
    }
}

/// Whether the snapshot shows the chunk: cell, floor style and wall style of every place.
pub open spec fn shows_chunk(
    snapshot: Seq<StyledCell>,
    map: Hypermap<CellType>,
    floor_layer: Hypermap<TileStyle>,
    wall_layer: Hypermap<TileStyle>,
    coord: ChunkCoord,
) -> bool {
    &&& snapshot.len() == 163_840
    &&& forall|l: LocalCoord, f: int|
        l.in_chunk() && floor_in_range(f) ==> snapshot[index_of(l.x as int, l.y as int, f)] == (
            #[trigger] map.chunk(coord).at(l, f),
            layer_style(floor_layer, coord, l, f),
            layer_style(wall_layer, coord, l, f),
        )
}

/// The cells of a held chunk with their styles.
pub fn chunk_snapshot(
    map: &Hypermap<CellType>,
    style_floor_map: &Hypermap<TileStyle>,
    style_wall_map: &Hypermap<TileStyle>,
    coord: ChunkCoord,
) -> (snapshot: Option<Vec<StyledCell>>)
    requires
        map.wf(),
        style_floor_map.wf(),
        style_wall_map.wf(),
    ensures
        match snapshot {
            Some(s) => map.has(coord) && shows_chunk(
                s@,
                *map,
                *style_floor_map,
                *style_wall_map,
                coord,
            ),
            None => !map.has(coord),
        },
{
    let cells = match map.get_chunk(coord) {
        Some(chunk) => clone_chunk_for_render_start(chunk),
        None => {
            return None;
        },
    };
    let floor_styles = clone_layer(style_floor_map, coord);
    let wall_styles = clone_layer(style_wall_map, coord);
    let mut snapshot: Vec<StyledCell> = Vec::with_capacity(SNAPSHOT_LEN);
    let mut i: usize = 0;
    while i < SNAPSHOT_LEN
        invariant
            i <= SNAPSHOT_LEN,
            cells@.len() == SNAPSHOT_LEN,
            floor_styles@.len() == SNAPSHOT_LEN,
            wall_styles@.len() == SNAPSHOT_LEN,
            snapshot@.len() == i,
            forall|j: int|
                0 <= j < i ==> #[trigger] snapshot@[j] == (
                    cells@[j],
                    floor_styles@[j],
                    wall_styles@[j],
                ),
        decreases SNAPSHOT_LEN - i,
    {
        snapshot.push((cells[i], floor_styles[i], wall_styles[i]));
        i += 1;
    }
    proof {
        assert forall|l: LocalCoord, f: int|
            l.in_chunk() && floor_in_range(f) implies snapshot@[index_of(
            l.x as int,
            l.y as int,
            f,
        )] == (
            #[trigger] map.chunk(coord).at(l, f),
            layer_style(*style_floor_map, coord, l, f),
            layer_style(*style_wall_map, coord, l, f),
        ) by {
            lemma_place(l.x as int, l.y as int, f);
        }
    }
    Some(snapshot)
}

proof fn lemma_ground_members(snapshot: Seq<StyledCell>, kind: MeshKind, n: nat, x: i32, y: i32, c: CellType)
    requires
        n <= SNAPSHOT_LEN,
        0 <= x < 128,
        0 <= y < 128,
    ensures
        ground_cells(snapshot, kind, n).contains((x, y, c)) <==> index_of(x as int, y as int, 0) < n
            && snapshot[index_of(x as int, y as int, 0)].0 == c && drawn_in(
            kind,
            snapshot[index_of(x as int, y as int, 0)],
        ),
    decreases n,
{
    let list = ground_cells(snapshot, kind, n);
    let at = index_of(x as int, y as int, 0);
    lemma_place(x as int, y as int, 0);
    if n > 0 {
        let before = ground_cells(snapshot, kind, (n - 1) as nat);
        lemma_ground_members(snapshot, kind, (n - 1) as nat, x, y, c);
        let (px, py, pf) = place_of(n - 1);
        if pf == 0 && drawn_in(kind, snapshot[n - 1]) {
            let item = (px as i32, py as i32, snapshot[n - 1].0);
            assert(list == before.push(item));
            assert(list[list.len() - 1] == item);
            if list.contains((x, y, c)) {
                let k = choose|k: int| 0 <= k < list.len() && list[k] == (x, y, c);
                if k < before.len() {
                    assert(before[k] == (x, y, c));
                } else {
                    assert(n - 1 == index_of(px, py, 0));
                }
            }
            if before.contains((x, y, c)) {
                let k = choose|k: int| 0 <= k < before.len() && before[k] == (x, y, c);
                assert(list[k] == (x, y, c));
            }
        } else {
            assert(list == before);
        }
    }
}

/// Every ground cell that is not void has exactly one floor quad, in the mesh of its floor
/// material, and void has none; a wall or pillar has exactly one slab entry, in the mesh of
/// its wall material, and no other cell has one.
pub proof fn every_ground_cell_is_drawn_once(
    prepared: PreparedChunkRender,
    snapshot: Seq<StyledCell>,
    active_floor: int,
    kind: MeshKind,
    x: i32,
    y: i32,
    c: CellType,
)
    requires
        snapshot.len() == 163_840,
        prepared.sorts(snapshot, active_floor, 163_840),
        0 <= x < 128,
        0 <= y < 128,
    ensures
        prepared.ground(kind).contains((x, y, c)) <==> snapshot[index_of(x as int, y as int, 0)].0
            == c && drawn_in(kind, snapshot[index_of(x as int, y as int, 0)]),
        prepared.ground(kind).no_duplicates(),
{
    lemma_place(x as int, y as int, 0);
    lemma_ground_members(snapshot, kind, 163_840, x, y, c);
    lemma_ground_once(snapshot, kind, 163_840);
    assert(prepared.ground(kind) == ground_cells(snapshot, kind, 163_840));
}

proof fn lemma_ground_once(snapshot: Seq<StyledCell>, kind: MeshKind, n: nat)
    requires
        n <= SNAPSHOT_LEN,
    ensures
        ground_cells(snapshot, kind, n).no_duplicates(),
    decreases n,
{
    if n > 0 {
        lemma_ground_once(snapshot, kind, (n - 1) as nat);
        let (px, py, pf) = place_of(n - 1);
        assert(0 <= px < 128 && 0 <= py < 128);
        if pf == 0 {
            assert(n - 1 == index_of(px, py, 0));
            let before = ground_cells(snapshot, kind, (n - 1) as nat);
            lemma_ground_members(
                snapshot,
                kind,
                (n - 1) as nat,
                px as i32,
                py as i32,
                snapshot[n - 1].0,
            );
            assert(!before.contains((px as i32, py as i32, snapshot[n - 1].0)));
        }
    }
}

} // verus!
