//! Road corridors of neighbouring chunks meet.
use vstd::prelude::*;

use crate::map::hypermap::{HypermapChunk, LocalCoord};
use crate::map::map_generator::draft::{becomes, tile_at, Cells, DraftTile};
use crate::map::map_generator::grid::in_grid;
use crate::map::map_generator::step_chunk_connectors::{
    corridors_read_back, covered, edge_road, in_corridor, laid_out, margin_cell, margin_road,
    on_corridor, road_along, runs, ChunkSide,
};
use crate::map::map_generator::types::{ChunkRoadConnectors, RoadConnector};
use crate::map::world_map::CellType;

verus! {

/// The corridors of one side of a plan.
pub open spec fn side_of(plan: ChunkRoadConnectors, side: ChunkSide) -> Seq<RoadConnector> {
    match side {
        ChunkSide::West => plan.west@,
        ChunkSide::East => plan.east@,
        ChunkSide::South => plan.south@,
        ChunkSide::North => plan.north@,
    }
}

/// Whether all sides of the plan are laid out inside the margin.
pub open spec fn plan_laid_out(plan: ChunkRoadConnectors, margin: int, size: int) -> bool {
    &&& laid_out(plan.west@, margin, size - margin)
    &&& laid_out(plan.east@, margin, size - margin)
    &&& laid_out(plan.south@, margin, size - margin)
    &&& laid_out(plan.north@, margin, size - margin)
}

/// Whether the margin of the grid is open on the corridors and void elsewhere.
pub open spec fn margin_shows(
    cells: Cells,
    plan: ChunkRoadConnectors,
    margin: int,
    size: int,
) -> bool {
    forall|x: int, z: int|
        in_grid(size, x, z) && !(margin <= x < size - margin && margin <= z < size - margin)
            ==> #[trigger] tile_at(cells, x, z) == if on_corridor(plan, margin, size, x, z) {
            DraftTile::Open
        } else {
            DraftTile::Void
        }
}

/// Whether the ground floor of the chunk is what the grid becomes.
pub open spec fn chunk_shows(chunk: HypermapChunk<CellType>, cells: Cells, size: int) -> bool {
    forall|l: LocalCoord|
        l.in_chunk() && in_grid(size, l.x as int, l.y as int) ==> becomes(
            tile_at(cells, l.x as int, l.y as int),
            #[trigger] chunk.at(l, 0),
        )
}

/// A generated chunk shows its neighbour the corridors of its plan: scanning the border gives
/// the plan back, so that the neighbour's corridors meet them.
pub proof fn neighbours_see_the_planned_corridors(
    chunk: HypermapChunk<CellType>,
    cells: Cells,
    plan: ChunkRoadConnectors,
    margin: int,
    size: int,
    side: ChunkSide,
)
    requires
        0 < margin,
        2 * margin < size <= 128,
        plan_laid_out(plan, margin, size),
        margin_shows(cells, plan, margin, size),
        chunk_shows(chunk, cells, size),
    ensures
        runs(road_along(chunk, side, margin, size), 0) == side_of(plan, side),
{
    let list = side_of(plan, side);
    let road = road_along(chunk, side, margin, size);
    assert forall|k: int| 0 <= k < road.len() implies #[trigger] road[k] == covered(list, k) by {
        if covered(list, k) {
            lemma_margin_tile(chunk, cells, plan, margin, size, side, 0, k);
            assert(margin_road(chunk, side, margin, size, 0, k));
        }
        if edge_road(chunk, side, margin, size, k) {
            let d = choose|d: int|
                0 <= d < margin && #[trigger] margin_road(chunk, side, margin, size, d, k);
            lemma_margin_tile(chunk, cells, plan, margin, size, side, d, k);
        }
    }
    assert(laid_out(list, 0, road.len() as int));
    if list.len() > 0 {
        assert(margin <= list[0].start);
    }
    corridors_read_back(list, road, 0, 0);
    assert(list.skip(0) =~= list);
}

/// A cell of the margin is road just where a corridor of its side crosses it, or where a
/// corridor of an adjoining side does, which stays out of the corners.
proof fn lemma_margin_tile(
    chunk: HypermapChunk<CellType>,
    cells: Cells,
    plan: ChunkRoadConnectors,
    margin: int,
    size: int,
    side: ChunkSide,
    d: int,
    k: int,
)
    requires
        0 < margin,
        2 * margin < size <= 128,
        plan_laid_out(plan, margin, size),
        margin_shows(cells, plan, margin, size),
        chunk_shows(chunk, cells, size),
        0 <= d < margin,
        0 <= k < size,
    ensures
        margin_road(chunk, side, margin, size, d, k) == covered(side_of(plan, side), k),
{
    let c = margin_cell(side, margin, size, d, k);
    let l = LocalCoord { x: c.0 as i32, y: c.1 as i32 };
    assert(l.in_chunk());
    assert(in_grid(size, c.0, c.1));
    assert(becomes(tile_at(cells, c.0, c.1), chunk.at(l, 0)));
    assert(!covered(plan.west@, c.1) || margin <= c.1 < size - margin) by {
        if covered(plan.west@, c.1) {
            let i = choose|i: int|
                0 <= i < plan.west@.len() && in_corridor(#[trigger] plan.west@[i], c.1);
        }
    }
    assert(!covered(plan.east@, c.1) || margin <= c.1 < size - margin) by {
        if covered(plan.east@, c.1) {
            let i = choose|i: int|
                0 <= i < plan.east@.len() && in_corridor(#[trigger] plan.east@[i], c.1);
        }
    }
    assert(!covered(plan.south@, c.0) || margin <= c.0 < size - margin) by {
        if covered(plan.south@, c.0) {
            let i = choose|i: int|
                0 <= i < plan.south@.len() && in_corridor(#[trigger] plan.south@[i], c.0);
        }
    }
    assert(!covered(plan.north@, c.0) || margin <= c.0 < size - margin) by {
        if covered(plan.north@, c.0) {
            let i = choose|i: int|
                0 <= i < plan.north@.len() && in_corridor(#[trigger] plan.north@[i], c.0);
        }
    }
}

} // verus!
