//! Cross-chunk road corridors through the void margin (3–4 tiles wide).
use rand::rngs::StdRng;
use vstd::prelude::*;

use crate::map::hypermap::{ChunkCoord, Hypermap, HypermapChunk, LocalCoord};
use crate::map::map_generator::draft::{sound, tile_at, Cells, DraftTile, MapDraft};
use crate::map::map_generator::grid::in_grid;
use crate::map::map_generator::step_carpet::fill_rect;
use crate::map::map_generator::types::{
    ChunkRoadConnectors, RoadConnector, CHUNK_CONNECTOR_WIDTH_MAX, CHUNK_CONNECTOR_WIDTH_MIN,
    CONNECTORS_PER_SIDE_MAX, CONNECTORS_PER_SIDE_MIN,
};
use crate::map::world_map::{passable, CellType};
use crate::rng;

verus! {

fn copy_connectors(from: &Vec<RoadConnector>) -> (out: Vec<RoadConnector>)
    ensures
        out@ == from@,
{
    let mut out: Vec<RoadConnector> = Vec::with_capacity(from.len());
    let mut i: usize = 0;
    while i < from.len()
        invariant
            i <= from@.len(),
            out@ == from@.take(i as int),
        decreases from@.len() - i,
    {
        out.push(from[i]);
        i += 1;
        assert(out@ =~= from@.take(i as int));
    }
    assert(out@ =~= from@);
    out
}

/// A plan with the same corridors.
pub fn copy_plan(plan: &ChunkRoadConnectors) -> (out: ChunkRoadConnectors)
    ensures
        out.west@ == plan.west@,
        out.east@ == plan.east@,
        out.south@ == plan.south@,
        out.north@ == plan.north@,
{
    ChunkRoadConnectors {
        west: copy_connectors(&plan.west),
        east: copy_connectors(&plan.east),
        south: copy_connectors(&plan.south),
        north: copy_connectors(&plan.north),
    }
}

/// A side of a chunk.
#[derive(Debug, Clone, Copy, PartialEq, Eq, Structural)]
pub enum ChunkSide {
    West,
    East,
    South,
    North,
}

impl ChunkSide {
    /// Offset to the chunk beyond this side.
    pub open spec fn delta(self) -> (int, int) {
        match self {
            ChunkSide::West => (-1, 0),
            ChunkSide::East => (1, 0),
            ChunkSide::South => (0, -1),
            ChunkSide::North => (0, 1),
        }
    }

    /// The side of the neighbour that meets this side.
    pub open spec fn opposite(self) -> ChunkSide {
        match self {
            ChunkSide::West => ChunkSide::East,
            ChunkSide::East => ChunkSide::West,
            ChunkSide::South => ChunkSide::North,
            ChunkSide::North => ChunkSide::South,
        }
    }

    /// The chunk beyond this side, and its side that meets this one.
    pub fn neighbor_coord_and_their_side(self, coord: ChunkCoord) -> (out: (ChunkCoord, ChunkSide))
        requires
            i32::MIN < coord.x < i32::MAX,
            i32::MIN < coord.y < i32::MAX,
        ensures
            out.0.x == coord.x + self.delta().0,
            out.0.y == coord.y + self.delta().1,
            out.1 == self.opposite(),
    {
        match self {
            ChunkSide::West => (ChunkCoord::new(coord.x - 1, coord.y), ChunkSide::East),
            ChunkSide::East => (ChunkCoord::new(coord.x + 1, coord.y), ChunkSide::West),
            ChunkSide::South => (ChunkCoord::new(coord.x, coord.y - 1), ChunkSide::North),
            ChunkSide::North => (ChunkCoord::new(coord.x, coord.y + 1), ChunkSide::South),
        }
    }
}

pub fn cell_is_road(cell: &CellType) -> (road: bool)
    ensures
        road == passable(*cell),
{
    matches!(*cell, CellType::Road | CellType::Charger(_) | CellType::PartsDepot(_))
}

/// Index after the last tile of the run of road that goes on at `from`.
pub open spec fn run_end(road: Seq<bool>, from: int) -> int
    decreases road.len() - from,
{
    if from >= road.len() || !road[from] {
        from
    } else {
        run_end(road, from + 1)
    }
}

/// The runs of road from index `from` on.
pub open spec fn runs(road: Seq<bool>, from: int) -> Seq<RoadConnector>
    decreases road.len() - from,
{
    if from >= road.len() {
        seq![]
    } else if !road[from] {
        runs(road, from + 1)
    } else {
        let end = run_end(road, from);
        if end <= from || end > road.len() {
            seq![]
        } else {
            seq![RoadConnector { start: from as i32, width: (end - from) as i32 }] + runs(road, end)
        }
    }
}

proof fn lemma_run_end(road: Seq<bool>, from: int)
    requires
        0 <= from <= road.len(),
    ensures
        from <= run_end(road, from) <= road.len(),
        from < road.len() && road[from] ==> from < run_end(road, from),
        run_end(road, from) < road.len() ==> !road[run_end(road, from)],
        forall|i: int| from <= i < run_end(road, from) ==> #[trigger] road[i],
    decreases road.len() - from,
{
    if from < road.len() && road[from] {
        lemma_run_end(road, from + 1);
    }
}

/// The runs of road along a side.
pub fn runs_to_connectors(road_along: &[bool]) -> (out: Vec<RoadConnector>)
    requires
        road_along@.len() <= i32::MAX,
    ensures
        out@ == runs(road_along@, 0),
{
    let ghost all = runs(road_along@, 0);
    let n: usize = road_along.len();
    let mut out: Vec<RoadConnector> = Vec::new();
    let mut i: usize = 0;
    assert(out@ + runs(road_along@, 0) =~= all);
    while i < n
        invariant
            n == road_along@.len(),
            n <= i32::MAX,
            i <= n,
            all == runs(road_along@, 0),
            out@ + runs(road_along@, i as int) == all,
        decreases n - i,
    {
        if !road_along[i] {
            i += 1;
            continue;
        }
        let start: usize = i;
        while i < n && road_along[i]
            invariant
                n == road_along@.len(),
                start <= i <= n,
                run_end(road_along@, start as int) == run_end(road_along@, i as int),
            decreases n - i,
        {
            i += 1;
        }
        proof {
            lemma_run_end(road_along@, start as int);
            let one = RoadConnector { start: start as i32, width: (i - start) as i32 };
            assert(runs(road_along@, start as int) == seq![one] + runs(road_along@, i as int));
            assert(out@ + runs(road_along@, start as int) =~= out@.push(one) + runs(
                road_along@,
                i as int,
            ));
        }
        out.push(RoadConnector { start: start as i32, width: (i - start) as i32 });
    }
    assert(out@ =~= out@ + runs(road_along@, i as int));
    out
}

/// Whether index `k` along the side lies in the corridor.
pub open spec fn in_corridor(c: RoadConnector, k: int) -> bool {
    c.start <= k < c.start + c.width
}

/// Whether one of the corridors covers index `k` along the side.
pub open spec fn covered(list: Seq<RoadConnector>, k: int) -> bool {
    exists|i: int| 0 <= i < list.len() && in_corridor(#[trigger] list[i], k)
}

/// Corridors in order, none empty, none touching the next, all between `lo` and `hi`.
pub open spec fn laid_out(list: Seq<RoadConnector>, lo: int, hi: int) -> bool {
    &&& forall|i: int|
        0 <= i < list.len() ==> (#[trigger] list[i]).width > 0 && lo <= list[i].start
            && list[i].start + list[i].width <= hi
    &&& forall|i: int, j: int|
        0 <= i < j < list.len() ==> (#[trigger] list[i]).start + list[i].width < (
        #[trigger] list[j]).start
}

/// Corridors that were laid out can be read back from the road they make.
pub proof fn corridors_read_back(list: Seq<RoadConnector>, road: Seq<bool>, from: int, m: int)
    requires
        0 <= from <= road.len(),
        road.len() <= i32::MAX,
        0 <= m <= list.len(),
        laid_out(list, 0, road.len() as int),
        forall|k: int| 0 <= k < road.len() ==> #[trigger] road[k] == covered(list, k),
        m < list.len() ==> from <= list[m].start,
        m > 0 ==> list[m - 1].start + list[m - 1].width <= from,
    ensures
        runs(road, from) == list.skip(m),
    decreases road.len() - from,
{
    if from >= road.len() {
        if m < list.len() {
            assert(list[m].width > 0);
        }
        assert(list.skip(m) =~= seq![]);
    } else if m < list.len() && from == list[m].start {
        let c = list[m];
        let end = c.start + c.width;
        assert(in_corridor(c, from));
        assert(road[from]);
        assert forall|k: int| from <= k < end implies #[trigger] road[k] by {
            assert(in_corridor(list[m], k));
        }
        if end < road.len() {
            assert(!road[end]) by {
                if covered(list, end) {
                    let i = choose|i: int| 0 <= i < list.len() && in_corridor(#[trigger] list[i], end);
                    if i < m {
                        assert(list[i].start + list[i].width < list[m].start);
                    } else if i > m {
                        assert(list[m].start + list[m].width < list[i].start);
                    }
                }
            }
        }
        lemma_run_ends_at(road, from, end);
        if m + 1 < list.len() {
            assert(list[m].start + list[m].width < list[m + 1].start);
        }
        corridors_read_back(list, road, end, m + 1);
        assert(list.skip(m) =~= seq![c] + list.skip(m + 1));
    } else {
        assert(!road[from]) by {
            if covered(list, from) {
                let i = choose|i: int| 0 <= i < list.len() && in_corridor(#[trigger] list[i], from);
                if i < m {
                    if i < m - 1 {
                        assert(list[i].start + list[i].width < list[m - 1].start);
                        assert(list[m - 1].width > 0);
                    }
                } else if i > m {
                    assert(list[m].start + list[m].width < list[i].start);
                    assert(list[m].width > 0);
                }
            }
        }
        corridors_read_back(list, road, from + 1, m);
    }
}

proof fn lemma_run_ends_at(road: Seq<bool>, from: int, end: int)
    requires
        0 <= from <= end <= road.len(),
        forall|k: int| from <= k < end ==> #[trigger] road[k],
        end < road.len() ==> !road[end],
    ensures
        run_end(road, from) == end,
    decreases end - from,
{
    if from < end {
        assert(road[from]);
        lemma_run_ends_at(road, from + 1, end);
    }
}

/// Runs of road are in order and apart.
pub proof fn lemma_runs_laid_out(road: Seq<bool>, from: int)
    requires
        0 <= from <= road.len() <= i32::MAX,
    ensures
        laid_out(runs(road, from), from, road.len() as int),
    decreases road.len() - from,
{
    if from < road.len() {
        if !road[from] {
            lemma_runs_laid_out(road, from + 1);
        } else {
            lemma_run_end(road, from);
            let end = run_end(road, from);
            lemma_runs_laid_out(road, end);
            let one = RoadConnector { start: from as i32, width: (end - from) as i32 };
            let rest = runs(road, end);
            let all = seq![one] + rest;
            assert(runs(road, from) == all);
            if end < road.len() {
                lemma_runs_laid_out(road, end + 1);
                assert(rest == runs(road, end + 1));
            } else {
                assert(rest.len() == 0);
            }
            assert forall|i: int, j: int| 0 <= i < j < all.len() implies (#[trigger] all[i]).start
                + all[i].width < (#[trigger] all[j]).start by {
                assert(all[j] == rest[j - 1]);
                if i > 0 {
                    assert(all[i] == rest[i - 1]);
                }
            }
            assert forall|i: int| 0 <= i < all.len() implies (#[trigger] all[i]).width > 0 && from
                <= all[i].start && all[i].start + all[i].width <= road.len() by {
                if i > 0 {
                    assert(all[i] == rest[i - 1]);
                }
            }
        }
    }
}

/// The cell `d` tiles into the margin of a side, at index `k` along it.
pub open spec fn margin_cell(side: ChunkSide, margin: int, size: int, d: int, k: int) -> (int, int) {
    match side {
        ChunkSide::West => (d, k),
        ChunkSide::East => (size - margin + d, k),
        ChunkSide::South => (k, d),
        ChunkSide::North => (k, size - margin + d),
    }
}

/// Whether the ground floor of the margin holds road at index `k` along the side.
pub open spec fn edge_road(
    chunk: HypermapChunk<CellType>,
    side: ChunkSide,
    margin: int,
    size: int,
    k: int,
) -> bool {
    exists|d: int| 0 <= d < margin && #[trigger] margin_road(chunk, side, margin, size, d, k)
}

/// Whether the cell of the margin is road.
pub open spec fn margin_road(
    chunk: HypermapChunk<CellType>,
    side: ChunkSide,
    margin: int,
    size: int,
    d: int,
    k: int,
) -> bool {
    let c = margin_cell(side, margin, size, d, k);
    passable(chunk.at(LocalCoord { x: c.0 as i32, y: c.1 as i32 }, 0))
}

/// Road along a side of a chunk.
pub open spec fn road_along(
    chunk: HypermapChunk<CellType>,
    side: ChunkSide,
    margin: int,
    size: int,
) -> Seq<bool> {
    Seq::new(size as nat, |k: int| edge_road(chunk, side, margin, size, k))
}

/// The road corridors that reach the given side of a chunk.
pub fn scan_chunk_edge_roads(
    chunk: &HypermapChunk<CellType>,
    side: ChunkSide,
    margin: i32,
    size: i32,
) -> (out: Vec<RoadConnector>)
    requires
        chunk.wf(),
        0 <= margin <= size <= 128,
    ensures
        out@ == runs(road_along(*chunk, side, margin as int, size as int), 0),
{
    let mut road: Vec<bool> = Vec::new();
    let mut k: i32 = 0;
    while k < size
        invariant
            chunk.wf(),
            0 <= margin <= size <= 128,
            0 <= k <= size,
            road@ == Seq::new(
                k as nat,
                |k: int| edge_road(*chunk, side, margin as int, size as int, k),
            ),
        decreases size - k,
    {
        let mut found: bool = false;
        let mut d: i32 = 0;
        while d < margin
            invariant
                chunk.wf(),
                0 <= margin <= size <= 128,
                0 <= k < size,
                0 <= d <= margin,
                found == exists|e: int|
                    0 <= e < d && #[trigger] margin_road(
                        *chunk,
                        side,
                        margin as int,
                        size as int,
                        e,
                        k as int,
                    ),
            decreases margin - d,
        {
            let local: LocalCoord = match side {
                ChunkSide::West => LocalCoord::new(d, k),
                ChunkSide::East => LocalCoord::new(size - margin + d, k),
                ChunkSide::South => LocalCoord::new(k, d),
                ChunkSide::North => LocalCoord::new(k, size - margin + d),
            };
            if cell_is_road(chunk.get_local_floor(local, 0)) {
                found = true;
                assert(margin_road(
                    *chunk,
                    side,
                    margin as int,
                    size as int,
                    d as int,
                    k as int,
                ));
            }
            d += 1;
        }
        road.push(found);
        k += 1;
        assert(road@ =~= Seq::new(
            k as nat,
            |k: int| edge_road(*chunk, side, margin as int, size as int, k),
        ));
    }
    runs_to_connectors(road.as_slice())
}

/// Whether a new corridor keeps clear of all others.
pub open spec fn clear_of(list: Seq<RoadConnector>, start: int, width: int) -> bool {
    forall|i: int|
        0 <= i < list.len() ==> start + width < (#[trigger] list[i]).start || list[i].start
            + list[i].width < start
}

fn is_clear_of(list: &Vec<RoadConnector>, start: i32, width: i32) -> (yes: bool)
    requires
        laid_out(list@, 0, 46340),
        0 <= start <= 46340,
        0 <= width <= 4,
    ensures
        yes == clear_of(list@, start as int, width as int),
{
    let mut i: usize = 0;
    while i < list.len()
        invariant
            laid_out(list@, 0, 46340),
            0 <= start <= 46340,
            0 <= width <= 4,
            i <= list@.len(),
            forall|j: int|
                0 <= j < i ==> start + width < (#[trigger] list@[j]).start || list@[j].start
                    + list@[j].width < start,
        decreases list@.len() - i,
    {
        let c: RoadConnector = list[i];
        if !(start + width < c.start || c.start + c.width < start) {
            return false;
        }
        i += 1;
    }
    true
}

fn insert_corridor(list: &mut Vec<RoadConnector>, c: RoadConnector, Ghost(lo): Ghost<int>, Ghost(hi): Ghost<int>)
    requires
        laid_out(old(list)@, lo, hi),
        clear_of(old(list)@, c.start as int, c.width as int),
        c.width > 0,
        lo <= c.start,
        c.start + c.width <= hi,
    ensures
        laid_out(final(list)@, lo, hi),
        final(list)@.len() == old(list)@.len() + 1,
        exists|at: int|
            0 <= at <= old(list)@.len() && final(list)@ == #[trigger] old(list)@.insert(at, c),
{
    let mut k: usize = 0;
    while k < list.len() && list[k].start < c.start
        invariant
            list@ == old(list)@,
            k <= list@.len(),
            forall|i: int| 0 <= i < k ==> (#[trigger] list@[i]).start < c.start,
        decreases list@.len() - k,
    {
        k += 1;
    }
    list.insert(k, c);
    proof {
        let before = old(list)@;
        let after = list@;
        assert(after == before.insert(k as int, c));
        assert forall|i: int, j: int| 0 <= i < j < after.len() implies (#[trigger] after[i]).start
            + after[i].width < (#[trigger] after[j]).start by {
            let bi = if i < k { i } else { i - 1 };
            let bj = if j < k { j } else { j - 1 };
            if i != k && j != k {
                assert(before[bi].start + before[bi].width < before[bj].start);
            } else if i == k {
                assert(before[bj].width > 0);
                assert(before[k as int].width > 0);
                if bj > k {
                    assert(before[k as int].start + before[k as int].width < before[bj].start);
                }
            } else {
                assert(before[bi].width > 0);
            }
        }
        assert forall|i: int| 0 <= i < after.len() implies (#[trigger] after[i]).width > 0 && lo
            <= after[i].start && after[i].start + after[i].width <= hi by {
            if i < k {
                assert(after[i] == before[i]);
            } else if i > k {
                assert(after[i] == before[i - 1]);
            }
        }
    }
}

/// Whether the corridors are ones that may be rolled: one or two (none where the side is too
/// short), three or four tiles wide, in order and apart, inside the margin.
pub open spec fn rolled(list: Seq<RoadConnector>, margin: int, size: int) -> bool {
    &&& laid_out(list, margin, size - margin)
    &&& forall|i: int| 0 <= i < list.len() ==> 3 <= (#[trigger] list[i]).width <= 4
    &&& list.len() <= 2
    &&& size - 2 * margin >= 4 ==> list.len() >= 1
}

fn plan_random_connectors(rng: &mut StdRng, margin: i32, size: i32) -> (placed: Vec<RoadConnector>)
    requires
        0 <= margin <= size <= 46340,
    ensures
        rolled(placed@, margin as int, size as int),
{
    let count: i32 = rng::range(rng, CONNECTORS_PER_SIDE_MIN, CONNECTORS_PER_SIDE_MAX);
    let mut placed: Vec<RoadConnector> = Vec::new();
    let mut k: i32 = 0;
    let mut full: bool = false;
    while !full && k < count
        invariant
            0 <= margin <= size <= 46340,
            0 <= k <= count <= 2,
            1 <= count,
            placed@.len() <= k,
            laid_out(placed@, margin as int, size - margin),
            forall|i: int| 0 <= i < placed@.len() ==> 3 <= (#[trigger] placed@[i]).width <= 4,
            k > 0 && size - 2 * margin >= 4 ==> placed@.len() >= 1,
            full ==> size - 2 * margin < 4,
        decreases count - k,
    {
        let width: i32 = rng::range(rng, CHUNK_CONNECTOR_WIDTH_MIN, CHUNK_CONNECTOR_WIDTH_MAX);
        let max_start: i32 = size - margin - width;
        if max_start < margin {
            full = true;
        } else {
            let mut chosen: Option<i32> = None;
            let mut tries: i32 = 0;
            while tries < 32 && chosen.is_none()
                invariant
                    0 <= margin <= size <= 46340,
                    3 <= width <= 4,
                    max_start == size - margin - width,
                    margin <= max_start,
                    0 <= tries <= 32,
                    laid_out(placed@, margin as int, size - margin),
                    chosen matches Some(s) ==> margin <= s <= max_start && clear_of(
                        placed@,
                        s as int,
                        width as int,
                    ),
                    placed@.len() == 0 && tries > 0 ==> chosen is Some,
                decreases 32 - tries,
            {
                let start: i32 = rng::range(rng, margin, max_start);
                if is_clear_of(&placed, start, width) {
                    chosen = Some(start);
                }
                tries += 1;
            }
            if let Some(start) = chosen {
                let ghost before = placed@;
                insert_corridor(
                    &mut placed,
                    RoadConnector { start, width },
                    Ghost(margin as int),
                    Ghost(size - margin),
                );
                proof {
                    let c = RoadConnector { start, width };
                    let at = choose|at: int|
                        0 <= at <= before.len() && placed@ == #[trigger] before.insert(at, c);
                    assert forall|i: int| 0 <= i < placed@.len() implies 3 <= (
                    #[trigger] placed@[i]).width <= 4 by {
                        if i < at {
                            assert(placed@[i] == before[i]);
                        } else if i > at {
                            assert(placed@[i] == before[i - 1]);
                        }
                    }
                }
            }
        }
        k += 1;
    }
    placed
}

/// Seed of the corridor plan of a chunk.
pub open spec fn plan_seed(base_seed: u64, coord: ChunkCoord) -> u64 {
    base_seed.wrapping_mul(0x9E37_79B9_7F4A_7C15).wrapping_add(coord.x as u64).wrapping_mul(
        0xBF58_476D_1CE4_E5B9,
    ).wrapping_add(coord.y as u64)
}

pub fn connector_plan_seed(base_seed: u64, coord: ChunkCoord) -> (seed: u64)
    ensures
        seed == plan_seed(base_seed, coord),
{
    base_seed.wrapping_mul(0x9E37_79B9_7F4A_7C15).wrapping_add(coord.x as u64).wrapping_mul(
        0xBF58_476D_1CE4_E5B9,
    ).wrapping_add(coord.y as u64)
}

/// Whether the corridors of a side are those that its neighbour already has on the border,
/// or rolled ones where there are none.
pub open spec fn side_planned(
    map: Hypermap<CellType>,
    coord: ChunkCoord,
    side: ChunkSide,
    margin: int,
    size: int,
    list: Seq<RoadConnector>,
) -> bool {
    let next = ChunkCoord {
        x: (coord.x + side.delta().0) as i32,
        y: (coord.y + side.delta().1) as i32,
    };
    let theirs = runs(road_along(map.chunk(next), side.opposite(), margin, size), 0);
    if map.has(next) && theirs.len() > 0 {
        list == theirs
    } else {
        rolled(list, margin, size)
    }
}

fn plan_side(
    map: &Hypermap<CellType>,
    coord: ChunkCoord,
    side: ChunkSide,
    margin: i32,
    size: i32,
    rng: &mut StdRng,
) -> (list: Vec<RoadConnector>)
    requires
        map.wf(),
        i32::MIN < coord.x < i32::MAX,
        i32::MIN < coord.y < i32::MAX,
        0 <= margin <= size <= 128,
    ensures
        side_planned(*map, coord, side, margin as int, size as int, list@),
{
    let (neighbor, their_side) = side.neighbor_coord_and_their_side(coord);
    if let Some(chunk) = map.get_chunk(neighbor) {
        let theirs = scan_chunk_edge_roads(chunk, their_side, margin, size);
        if theirs.len() > 0 {
            return theirs;
        }
    }
    plan_random_connectors(rng, margin, size)
}

/// Whether all four sides of the plan fit the neighbours.
pub open spec fn planned(
    map: Hypermap<CellType>,
    coord: ChunkCoord,
    margin: int,
    size: int,
    plan: ChunkRoadConnectors,
) -> bool {
    &&& side_planned(map, coord, ChunkSide::West, margin, size, plan.west@)
    &&& side_planned(map, coord, ChunkSide::East, margin, size, plan.east@)
    &&& side_planned(map, coord, ChunkSide::South, margin, size, plan.south@)
    &&& side_planned(map, coord, ChunkSide::North, margin, size, plan.north@)
}

/// Planned corridors lie along their sides.
pub proof fn lemma_planned_near(
    map: Hypermap<CellType>,
    coord: ChunkCoord,
    side: ChunkSide,
    margin: int,
    size: int,
    list: Seq<RoadConnector>,
)
    requires
        0 <= margin <= size <= 128,
        side_planned(map, coord, side, margin, size, list),
    ensures
        near(list),
        laid_out(list, 0, size),
{
    let next = ChunkCoord {
        x: (coord.x + side.delta().0) as i32,
        y: (coord.y + side.delta().1) as i32,
    };
    let road = road_along(map.chunk(next), side.opposite(), margin, size);
    lemma_runs_laid_out(road, 0);
    assert(laid_out(list, 0, size));
    assert forall|i: int| 0 <= i < list.len() implies i32::MIN <= (#[trigger] list[i]).start
        + list[i].width <= i32::MAX by {
        assert(list[i].width > 0);
    }
}

/// Plans the road corridors of a chunk so that they meet those of its neighbours.
pub fn plan_chunk_connectors(
    map: &Hypermap<CellType>,
    coord: ChunkCoord,
    margin: i32,
    size: i32,
    generator_seed: u64,
) -> (plan: ChunkRoadConnectors)
    requires
        map.wf(),
        i32::MIN < coord.x < i32::MAX,
        i32::MIN < coord.y < i32::MAX,
        0 <= margin <= size <= 128,
    ensures
        planned(*map, coord, margin as int, size as int, plan),
{
    let mut rng: StdRng = rng::seeded(connector_plan_seed(generator_seed, coord));
    let west = plan_side(map, coord, ChunkSide::West, margin, size, &mut rng);
    let east = plan_side(map, coord, ChunkSide::East, margin, size, &mut rng);
    let south = plan_side(map, coord, ChunkSide::South, margin, size, &mut rng);
    let north = plan_side(map, coord, ChunkSide::North, margin, size, &mut rng);
    ChunkRoadConnectors { west, east, south, north }
}

/// Whether a corridor of the plan runs over the cell.
pub open spec fn on_corridor(
    plan: ChunkRoadConnectors,
    margin: int,
    size: int,
    x: int,
    z: int,
) -> bool {
    ||| x <= margin && covered(plan.west@, z)
    ||| x >= size - margin - 1 && covered(plan.east@, z)
    ||| z <= margin && covered(plan.south@, x)
    ||| z >= size - margin - 1 && covered(plan.north@, x)
}

/// Corridors whose ends are machine integers.
pub open spec fn near(list: Seq<RoadConnector>) -> bool {
    forall|i: int|
        0 <= i < list.len() ==> i32::MIN <= (#[trigger] list[i]).start + list[i].width <= i32::MAX
}

fn low(a: i32) -> (b: i32)
    ensures
        b == if a < 0 {
            0
        } else {
            a
        },
{
    if a < 0 {
        0
    } else {
        a
    }
}

fn high(a: i32, n: i32) -> (b: i32)
    ensures
        b == if a > n {
            n
        } else {
            a
        },
{
    if a > n {
        n
    } else {
        a
    }
}

/// Opens the corridors of one side: columns or rows `from` up to `to` of the margin.
fn stamp_connectors(
    cells: &mut Cells,
    list: &Vec<RoadConnector>,
    size: i32,
    from: i32,
    to: i32,
    along_z: bool,
)
    requires
        sound(*old(cells), size as int),
        near(list@),
    ensures
        sound(*final(cells), size as int),
        forall|x: int, z: int| #[trigger]
            tile_at(*final(cells), x, z) == if in_grid(size as int, x, z) && (if along_z {
                from <= x < to && covered(list@, z)
            } else {
                from <= z < to && covered(list@, x)
            }) {
                DraftTile::Open
            } else {
                tile_at(*old(cells), x, z)
            },
{
    let mut i: usize = 0;
    while i < list.len()
        invariant
            sound(*cells, size as int),
            near(list@),
            i <= list@.len(),
            forall|x: int, z: int| #[trigger]
                tile_at(*cells, x, z) == if in_grid(size as int, x, z) && (if along_z {
                    from <= x < to && covered(list@.take(i as int), z)
                } else {
                    from <= z < to && covered(list@.take(i as int), x)
                }) {
                    DraftTile::Open
                } else {
                    tile_at(*old(cells), x, z)
                },
        decreases list@.len() - i,
    {
        let c: RoadConnector = list[i];
        let ghost before = *cells;
        let lo: i32 = low(c.start);
        let hi: i32 = high(c.start + c.width, size);
        let near_lo: i32 = low(from);
        let near_hi: i32 = high(to, size);
        if along_z {
            fill_rect(cells, near_lo, lo, near_hi, hi, DraftTile::Open);
        } else {
            fill_rect(cells, lo, near_lo, hi, near_hi, DraftTile::Open);
        }
        proof {
            let a = list@.take(i as int);
            let b = list@.take(i + 1);
            assert(b =~= a.push(c));
            assert forall|k: int| #[trigger] covered(b, k) == (covered(a, k) || in_corridor(c, k)) by {
                if covered(a, k) {
                    let j = choose|j: int| 0 <= j < a.len() && in_corridor(#[trigger] a[j], k);
                    assert(in_corridor(b[j], k));
                }
                if in_corridor(c, k) {
                    assert(in_corridor(b[i as int], k));
                }
                if covered(b, k) {
                    let j = choose|j: int| 0 <= j < b.len() && in_corridor(#[trigger] b[j], k);
                    if j < a.len() {
                        assert(in_corridor(a[j], k));
                    }
                }
            }
            assert forall|x: int, z: int| #[trigger]
                tile_at(*cells, x, z) == if in_grid(size as int, x, z) && (if along_z {
                    from <= x < to && covered(b, z)
                } else {
                    from <= z < to && covered(b, x)
                }) {
                    DraftTile::Open
                } else {
                    tile_at(*old(cells), x, z)
                } by {
                assert(tile_at(before, x, z) == tile_at(before, x, z));
                assert(covered(b, z) == (covered(a, z) || in_corridor(c, z)));
                assert(covered(b, x) == (covered(a, x) || in_corridor(c, x)));
            }
        }
        i += 1;
    }
    assert(list@.take(i as int) =~= list@);
}

/// Whether the planned corridors were opened through the margin.
pub open spec fn corridors_opened(before: MapDraft, after: MapDraft) -> bool {
    &&& after == (MapDraft { cells: after.cells, ..before })
    &&& forall|x: int, z: int| #[trigger]
        after.tile(x, z) == if in_grid(before.size as int, x, z) && on_corridor(
            before.connector_plan,
            before.margin as int,
            before.size as int,
            x,
            z,
        ) {
            DraftTile::Open
        } else {
            before.tile(x, z)
        }
}

impl MapDraft {
    /// Opens the planned road corridors through the void margin.
    pub fn step_stamp_chunk_connectors(&mut self)
        requires
            old(self).wf(),
            near(old(self).connector_plan.west@),
            near(old(self).connector_plan.east@),
            near(old(self).connector_plan.south@),
            near(old(self).connector_plan.north@),
        ensures
            final(self).wf(),
            corridors_opened(*old(self), *final(self)),
    {
        let m: i32 = self.margin;
        let sz: i32 = self.size;
        let ghost c0 = self.cells;
        stamp_connectors(&mut self.cells, &self.connector_plan.west, sz, 0, m + 1, true);
        let ghost c1 = self.cells;
        stamp_connectors(&mut self.cells, &self.connector_plan.east, sz, sz - m - 1, sz, true);
        let ghost c2 = self.cells;
        stamp_connectors(&mut self.cells, &self.connector_plan.south, sz, 0, m + 1, false);
        let ghost c3 = self.cells;
        stamp_connectors(&mut self.cells, &self.connector_plan.north, sz, sz - m - 1, sz, false);
        proof {
            assert forall|x: int, z: int| #[trigger]
                tile_at(self.cells, x, z) == if in_grid(sz as int, x, z) && on_corridor(
                    self.connector_plan,
                    m as int,
                    sz as int,
                    x,
                    z,
                ) {
                    DraftTile::Open
                } else {
                    tile_at(c0, x, z)
                } by {
                assert(tile_at(c3, x, z) == tile_at(c3, x, z));
                assert(tile_at(c2, x, z) == tile_at(c2, x, z));
                assert(tile_at(c1, x, z) == tile_at(c1, x, z));
            }
        }
    }
}

} // verus!
