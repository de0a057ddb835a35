//! What a layout looks like whatever is rolled: where seeds sprout, how rooms grow, which cells
//! houses share, where floors are laid and corridors run.
use vstd::prelude::*;

use crate::map::hypermap::{ChunkCoord, Hypermap, LocalCoord};
use crate::map::map_generator::corner_pillars::{
    corner_between, corner_from, elbow, interior, pillar_at, Dir, WallField,
};
use crate::map::map_generator::draft::{
    becomes, tile_at, Cells, DraftBounds, DraftTile, MapDraft, Room, RoomRecord,
};
use crate::map::map_generator::entry_tile::entry_floor;
use crate::map::map_generator::grid::value_at;
use crate::map::map_generator::grid_fill::{box_count, row_count};
use crate::map::map_generator::house::House;
use crate::map::map_generator::inner_doors_laws::{lemma_leader_range, lemma_member_origin};
use crate::map::map_generator::pipeline::maps_written;
use crate::map::map_generator::slab_laws::{across, facing_edge};
use crate::map::map_generator::step_chunk_connectors::{
    corridors_opened, in_corridor, laid_out, margin_cell, on_corridor, ChunkSide,
};
use crate::map::map_generator::step_door::{in_a_house, is_edge};
use crate::map::map_generator::step_home_crawler::{
    crawled, house_floor, in_glass, in_marble, is_center_floor, wave_radii, wave_step, waves_stay_near,
};
use crate::map::map_generator::step_houses::{
    built_from, clustered, leaders, leads, members, overlap, overlap_step, same_house,
};
use crate::map::map_generator::step_inner_walls::{gap, room_fits, rooms_fit};
use crate::map::map_generator::step_ponds::{pond_has, ponds_allowed, ponds_dug, ponds_meet, PondRect};
use crate::map::map_generator::step_rooms::grown;
use crate::map::map_generator::step_seeds::{clamped, offset, spread_out, sprout};
use crate::map::map_generator::types::{HouseEntrypoint, RoadConnector};
use crate::map::search::{tile_distance, Tile};
use crate::map::world_map::{CellType, LampDecoration, TileStyle, WallCorner};
use crate::reach::{
    lemma_reaches_self, lemma_reaches_step, lemma_reaches_symmetric, lemma_reaches_transitive,
};

verus! {

/// Subseeds sprout in eight directions, an eighth of a turn apart: the first points to larger
/// x, the second to larger x and z, and two directions on is a quarter of a turn on.
pub proof fn sprouts_turn_by_eighths(dir: int, dist: int)
    requires
        0 <= dir,
    ensures
        dir % 8 == 0 ==> offset(dir, dist) == (dist, 0int),
        dir % 8 == 1 ==> offset(dir, dist) == (dist, dist),
        offset(dir + 2, dist) == (-offset(dir, dist).1, offset(dir, dist).0),
        offset(dir + 4, dist) == (-offset(dir, dist).0, -offset(dir, dist).1),
{
}

/// Moving a number into a range changes it as little as possible.
pub proof fn clamping_moves_least(v: int, lo: int, hi: int, w: int)
    requires
        lo <= w <= hi,
    ensures
        lo <= clamped(v, lo, hi) <= hi,
        v <= w ==> v <= clamped(v, lo, hi) <= w,
        w <= v ==> w <= clamped(v, lo, hi) <= v,
{
}

/// A subseed lies within its distance of its seed on both axes, and inside the bounds.
pub proof fn sprouts_stay_near(seed: Tile, dir: int, dist: int, bounds: DraftBounds)
    requires
        0 <= dir,
        0 <= dist,
        bounds.grow_lo <= seed.0 <= bounds.grow_hi,
        bounds.grow_lo <= seed.1 <= bounds.grow_hi,
    ensures
        ({
            let t = sprout(seed, dir, dist, bounds);
            &&& bounds.grow_lo <= t.0 <= bounds.grow_hi
            &&& bounds.grow_lo <= t.1 <= bounds.grow_hi
            &&& -dist <= t.0 - seed.0 <= dist
            &&& -dist <= t.1 - seed.1 <= dist
            &&& dir % 8 == 0 && seed.0 + dist <= bounds.grow_hi ==> t.0 == seed.0 + dist && t.1
                == seed.1
            &&& dir % 8 == 2 && seed.1 + dist <= bounds.grow_hi ==> t.0 == seed.0 && t.1 == seed.1
                + dist
        }),
{
}

/// A room has the cells of the bounds that are within its radii of its center.
pub proof fn rooms_grow_by_their_radii(
    center: Tile,
    rx: int,
    rz: int,
    bounds: DraftBounds,
    x: int,
    z: int,
)
    requires
        0 <= rx,
        0 <= rz,
        bounds.grow_lo <= center.0 <= bounds.grow_hi,
        bounds.grow_lo <= center.1 <= bounds.grow_hi,
    ensures
        grown(center, rx, rz, bounds).has(x, z) <==> {
            &&& bounds.grow_lo <= x <= bounds.grow_hi
            &&& bounds.grow_lo <= z <= bounds.grow_hi
            &&& -rx <= x - center.0 <= rx
            &&& -rz <= z - center.1 <= rz
        },
{
}

/// Two rooms overlap just where they share a cell.
pub proof fn overlapping_rooms_share_a_cell(a: Room, b: Room)
    requires
        a.x0 <= a.x1,
        a.z0 <= a.z1,
        b.x0 <= b.x1,
        b.z0 <= b.z1,
    ensures
        overlap(a, b) <==> exists|x: int, z: int| #[trigger] a.has(x, z) && b.has(x, z),
{
    if overlap(a, b) {
        let x: int = if a.x0 < b.x0 {
            b.x0 as int
        } else {
            a.x0 as int
        };
        let z: int = if a.z0 < b.z0 {
            b.z0 as int
        } else {
            a.z0 as int
        };
        assert(a.has(x, z) && b.has(x, z));
    }
}

/// Two ponds meet just where they share a cell.
pub proof fn meeting_ponds_share_a_cell(a: PondRect, b: PondRect)
    requires
        a.0 <= a.2,
        a.1 <= a.3,
        b.0 <= b.2,
        b.1 <= b.3,
    ensures
        ponds_meet(a, b) <==> exists|x: int, z: int| #[trigger] pond_has(a, x, z) && pond_has(b, x, z),
{
    if ponds_meet(a, b) {
        let x: int = if a.0 < b.0 {
            b.0 as int
        } else {
            a.0 as int
        };
        let z: int = if a.1 < b.1 {
            b.1 as int
        } else {
            a.1 as int
        };
        assert(pond_has(a, x, z) && pond_has(b, x, z));
    }
}

proof fn lemma_leaders_lead(records: Seq<RoomRecord>, n: nat, h: int, g: int)
    requires
        n <= records.len(),
        0 <= h < leaders(records, n).len(),
        0 <= g < h,
    ensures
        leads(records, leaders(records, n)[h]),
        leads(records, leaders(records, n)[g]),
        leaders(records, n)[g] < leaders(records, n)[h],
    decreases n,
{
    let rest = leaders(records, (n - 1) as nat);
    if h < rest.len() {
        lemma_leaders_lead(records, (n - 1) as nat, h, g);
    } else {
        lemma_leader_range(records, (n - 1) as nat, g);
        lemma_leader_leads(records, (n - 1) as nat, g);
    }
}

proof fn lemma_leader_leads(records: Seq<RoomRecord>, n: nat, g: int)
    requires
        n <= records.len(),
        0 <= g < leaders(records, n).len(),
    ensures
        leads(records, leaders(records, n)[g]),
    decreases n,
{
    let rest = leaders(records, (n - 1) as nat);
    if g < rest.len() {
        lemma_leader_leads(records, (n - 1) as nat, g);
    }
}

/// Houses share no cell: a cell of one house lies in no other.
pub proof fn houses_share_no_cell(
    records: Seq<RoomRecord>,
    houses: Seq<House>,
    g: int,
    h: int,
    x: int,
    z: int,
)
    requires
        clustered(records, houses),
        0 <= g < h < houses.len(),
    ensures
        !(houses[g].has(x, z) && houses[h].has(x, z)),
{
    if houses[g].has(x, z) && houses[h].has(x, z) {
        let firsts = leaders(records, records.len());
        lemma_leaders_lead(records, records.len(), h, g);
        lemma_leader_range(records, records.len(), g);
        let (lg, lh) = (firsts[g], firsts[h]);
        assert(built_from(houses[g], members(records, lg, records.len())));
        assert(built_from(houses[h], members(records, lh, records.len())));
        let rg = houses[g].rects@;
        let rh = houses[h].rects@;
        let i = choose|i: int| 0 <= i < rg.len() && (#[trigger] rg[i]).has(x, z);
        let j = choose|j: int| 0 <= j < rh.len() && (#[trigger] rh[j]).has(x, z);
        let a = lemma_member_origin(records, lg, records.len(), i);
        let b = lemma_member_origin(records, lh, records.len(), j);
        let step = overlap_step(records);
        assert(overlap(records[a].bounds, records[b].bounds));
        assert(step(a, b));
        lemma_reaches_step(step, lg, a, b);
        assert forall|p: int, q: int| #[trigger] step(p, q) implies step(q, p) by {}
        lemma_reaches_symmetric(step, lh, b);
        lemma_reaches_transitive(step, lg, b, lh);
        assert(same_house(records, lg, lh));
    }
}

proof fn lemma_some_leader(records: Seq<RoomRecord>, n: nat, k: int) -> (h: int)
    requires
        n <= records.len(),
        0 <= k < n,
    ensures
        0 <= h < leaders(records, n).len(),
        same_house(records, leaders(records, n)[h], k),
    decreases n, k,
{
    let all = leaders(records, n);
    if leads(records, k) {
        let h = lemma_is_leader(records, n, k);
        lemma_reaches_self(overlap_step(records), k);
        h
    } else {
        let e = choose|e: int| 0 <= e < k && #[trigger] same_house(records, e, k);
        let h = lemma_some_leader(records, n, e);
        lemma_reaches_transitive(overlap_step(records), all[h], e, k);
        h
    }
}

proof fn lemma_is_leader(records: Seq<RoomRecord>, n: nat, k: int) -> (h: int)
    requires
        n <= records.len(),
        0 <= k < n,
        leads(records, k),
    ensures
        0 <= h < leaders(records, n).len(),
        leaders(records, n)[h] == k,
    decreases n,
{
    if k == n - 1 {
        leaders(records, n).len() - 1
    } else {
        lemma_is_leader(records, (n - 1) as nat, k)
    }
}

proof fn lemma_is_member(records: Seq<RoomRecord>, lead: int, n: nat, k: int) -> (i: int)
    requires
        n <= records.len(),
        0 <= k < n,
        same_house(records, lead, k),
    ensures
        0 <= i < members(records, lead, n).len(),
        members(records, lead, n)[i] == records[k].bounds,
    decreases n,
{
    if k == n - 1 {
        members(records, lead, n).len() - 1
    } else {
        lemma_is_member(records, lead, (n - 1) as nat, k)
    }
}

/// Every room becomes part of a house, and houses have no other cells: a cell lies in some
/// house just where it lies in some room.
pub proof fn houses_are_made_of_rooms(
    records: Seq<RoomRecord>,
    houses: Seq<House>,
    x: int,
    z: int,
)
    requires
        clustered(records, houses),
    ensures
        in_a_house(houses, x, z) <==> exists|k: int|
            0 <= k < records.len() && (#[trigger] records[k]).bounds.has(x, z),
{
    let firsts = leaders(records, records.len());
    if in_a_house(houses, x, z) {
        let h = choose|h: int| 0 <= h < houses.len() && (#[trigger] houses[h]).has(x, z);
        assert(built_from(houses[h], members(records, firsts[h], records.len())));
        let rects = houses[h].rects@;
        let i = choose|i: int| 0 <= i < rects.len() && (#[trigger] rects[i]).has(x, z);
        let k = lemma_member_origin(records, firsts[h], records.len(), i);
        assert(records[k].bounds.has(x, z));
    }
    if exists|k: int| 0 <= k < records.len() && (#[trigger] records[k]).bounds.has(x, z) {
        let k = choose|k: int| 0 <= k < records.len() && (#[trigger] records[k]).bounds.has(x, z);
        let h = lemma_some_leader(records, records.len(), k);
        let i = lemma_is_member(records, firsts[h], records.len(), k);
        assert(built_from(houses[h], members(records, firsts[h], records.len())));
        assert(houses[h].rects@[i].has(x, z));
        assert(houses[h].has(x, z));
    }
}

/// The floor of a doorway is the tile inside the door where that is open; otherwise it is some
/// open tile no more than two steps from the door, and never the road tile outside.
pub proof fn doorway_floors_lie_inside_if_open(cells: Cells, ep: HouseEntrypoint)
    requires
        is_edge(ep.outward_edge),
    ensures
        ({
            let inside = across(ep.wall_x as int, ep.wall_z as int, facing_edge(ep.outward_edge));
            let outside = across(ep.wall_x as int, ep.wall_z as int, ep.outward_edge);
            let floor = entry_floor(cells, ep, 0);
            &&& tile_at(cells, inside.0, inside.1) == DraftTile::Open ==> floor == Some(inside)
            &&& floor matches Some(p) ==> {
                &&& tile_at(cells, p.0, p.1) == DraftTile::Open
                &&& p != outside
                &&& -2 <= p.0 - ep.wall_x <= 2
                &&& -2 <= p.1 - ep.wall_z <= 2
            }
            &&& floor is None ==> !(tile_at(cells, ep.wall_x as int, ep.wall_z as int)
                == DraftTile::Open)
        }),
{
    lemma_floor_from(cells, ep, 0);
    if entry_floor(cells, ep, 0) is None {
        assert(entry_floor(cells, ep, 1) is None);
    }
}

proof fn lemma_floor_from(cells: Cells, ep: HouseEntrypoint, k: int)
    requires
        is_edge(ep.outward_edge),
        0 <= k <= 10,
    ensures
        entry_floor(cells, ep, k) matches Some(p) ==> {
            &&& tile_at(cells, p.0, p.1) == DraftTile::Open
            &&& p != across(ep.wall_x as int, ep.wall_z as int, ep.outward_edge)
            &&& -2 <= p.0 - ep.wall_x <= 2
            &&& -2 <= p.1 - ep.wall_z <= 2
        },
    decreases 10 - k,
{
    if k < 10 {
        lemma_floor_from(cells, ep, k + 1);
    }
}

/// Waves colour only open floor of houses, within five steps of the middle or of a doorway's
/// floor; everything else keeps its style.
pub proof fn waves_colour_only_house_floor(
    cells: Cells,
    houses: Seq<House>,
    radii: Seq<(i32, i32)>,
    n: nat,
    t: Tile,
    before: TileStyle,
)
    requires
        n <= houses.len(),
        radii.len() == houses.len(),
        wave_radii(radii),
    ensures
        ({
            let style = crawled(cells, houses, radii, n, t, before);
            &&& style == before || style == TileStyle::FloorMarble || style == TileStyle::FloorGlass
            &&& style != before ==> exists|i: int|
                0 <= i < n && house_floor(cells, #[trigger] houses[i], t)
        }),
    decreases n,
{
    if n > 0 {
        let house = houses[n - 1];
        let r = radii[n - 1];
        if in_marble(cells, house, r.1 as int, t) {
            let p = entry_floor(cells, house.entry->0, 0)->0;
            lemma_floor_open(cells, house.entry->0, 0);
            let s = (p.0 as i32, p.1 as i32);
            waves_stay_near(cells, house, s, t, r.1 as int);
            lemma_open_in_grid(cells, p.0, p.1);
            assert(house_floor(cells, houses[n - 1], t));
        } else if in_glass(cells, house, r.0 as int, t) {
            let c = choose|c: Tile| #[trigger]
                is_center_floor(cells, house, c) && crate::reach::reaches_within(
                    wave_step(cells, house),
                    c,
                    t,
                    r.0 as int,
                );
            waves_stay_near(cells, house, c, t, r.0 as int);
            assert(house_floor(cells, houses[n - 1], t));
        } else {
            waves_colour_only_house_floor(cells, houses, radii, (n - 1) as nat, t, before);
            if crawled(cells, houses, radii, n, t, before) != before {
                let i = choose|i: int|
                    0 <= i < n - 1 && house_floor(cells, #[trigger] houses[i], t);
                assert(house_floor(cells, houses[i], t));
            }
        }
    }
}

proof fn lemma_floor_open(cells: Cells, ep: HouseEntrypoint, k: int)
    requires
        0 <= k <= 10,
    ensures
        entry_floor(cells, ep, k) matches Some(p) ==> tile_at(cells, p.0, p.1) == DraftTile::Open,
    decreases 10 - k,
{
    if k < 10 {
        lemma_floor_open(cells, ep, k + 1);
    }
}

/// Whether the grid is small enough for its cells to have machine coordinates.
proof fn lemma_open_in_grid(cells: Cells, x: int, z: int)
    requires
        tile_at(cells, x, z) == DraftTile::Open,
    ensures
        0 <= x < cells@.len(),
        0 <= z < cells@.len(),
{
}

/// The sides of a chunk come in pairs: the neighbour beyond a side meets it with the opposite
/// side, and the way back is the opposite way.
pub proof fn sides_meet_their_opposites(side: ChunkSide)
    ensures
        side.opposite().opposite() == side,
        side.opposite() != side,
        side.opposite().delta().0 == -side.delta().0,
        side.opposite().delta().1 == -side.delta().1,
        side == ChunkSide::West <==> side.delta().0 == -1,
        side == ChunkSide::East <==> side.delta().0 == 1,
        side == ChunkSide::South <==> side.delta().1 == -1,
        side == ChunkSide::North <==> side.delta().1 == 1,
        side.delta().0 == 0 || side.delta().1 == 0,
{
}

/// The margin of a side is the strip along the border to the neighbour beyond it: it touches
/// that border and no other, and the index along the side runs along it.
pub proof fn margins_lie_along_their_border(
    side: ChunkSide,
    margin: int,
    size: int,
    d: int,
    k: int,
)
    requires
        0 <= d < margin,
        2 * margin <= size,
    ensures
        ({
            let c = margin_cell(side, margin, size, d, k);
            &&& side.delta().0 == -1 ==> 0 <= c.0 < margin && c.1 == k
            &&& side.delta().0 == 1 ==> size - margin <= c.0 < size && c.1 == k
            &&& side.delta().1 == -1 ==> 0 <= c.1 < margin && c.0 == k
            &&& side.delta().1 == 1 ==> size - margin <= c.1 < size && c.0 == k
        }),
{
}

/// Corridors cut through the margin and one cell beyond it, on the side that they are planned
/// for; deeper inside nothing changes.
pub proof fn corridors_only_cross_the_margin(before: MapDraft, after: MapDraft, x: int, z: int)
    requires
        corridors_opened(before, after),
        before.margin < x < before.size - before.margin - 1,
        before.margin < z < before.size - before.margin - 1,
    ensures
        after.tile(x, z) == before.tile(x, z),
{
    assert(!on_corridor(before.connector_plan, before.margin as int, before.size as int, x, z));
    assert(after.tile(x, z) == before.tile(x, z));
}

/// Ponds are dug in open ground outside the houses: what is void afterwards was void or open
/// road before, and all other tiles stay.
pub proof fn ponds_spare_the_houses(before: MapDraft, after: MapDraft, x: int, z: int)
    requires
        ponds_dug(before, after),
    ensures
        after.tile(x, z) == before.tile(x, z) || (before.tile(x, z) == DraftTile::Open && after.tile(
            x,
            z,
        ) == DraftTile::Void && !in_a_house(before.houses@, x, z) && before.bounds.grow_lo <= x
            <= before.bounds.grow_hi && before.bounds.grow_lo <= z <= before.bounds.grow_hi),
{
    let ponds = choose|ponds: Seq<PondRect>|
        #![trigger ponds_allowed(before.cells, before.houses@, before.bounds.grow_lo as int, before.bounds.grow_hi as int, ponds)]
        {
            &&& ponds.len() <= 2
            &&& ponds_allowed(
                before.cells,
                before.houses@,
                before.bounds.grow_lo as int,
                before.bounds.grow_hi as int,
                ponds,
            )
            &&& forall|x: int, z: int| #[trigger]
                after.tile(x, z) == if crate::map::map_generator::step_ponds::in_pond(ponds, x, z) {
                    DraftTile::Void
                } else {
                    before.tile(x, z)
                }
        };
    if crate::map::map_generator::step_ponds::in_pond(ponds, x, z) {
        let i = choose|i: int| 0 <= i < ponds.len() && pond_has(#[trigger] ponds[i], x, z);
        assert(ponds[i] == ponds[i]);
        assert(tile_at(before.cells, x, z) == DraftTile::Open && !in_a_house(before.houses@, x, z));
        assert(before.tile(x, z) == tile_at(before.cells, x, z));
    }
}

/// A pillar's corner is told by its two walls: a wall to the west puts it in a west corner and
/// one to the east in an east corner, a wall to the north in a south corner and one to the
/// south in a north corner; two walls make a corner just where they are perpendicular.
pub proof fn pillar_corners_follow_the_walls(a: Dir, b: Dir)
    ensures
        corner_between(a, b) is Some <==> a.delta().0 * b.delta().0 + a.delta().1 * b.delta().1 == 0,
        corner_between(a, b) == corner_between(b, a),
        corner_between(a, b) matches Some(c) ==> {
            &&& (a == Dir::West || b == Dir::West) <==> (c == WallCorner::Nw || c == WallCorner::Sw)
            &&& (a == Dir::East || b == Dir::East) <==> (c == WallCorner::Ne || c == WallCorner::Se)
            &&& (a == Dir::North || b == Dir::North) <==> (c == WallCorner::Sw || c == WallCorner::Se)
            &&& (a == Dir::South || b == Dir::South) <==> (c == WallCorner::Nw || c == WallCorner::Ne)
        },
{
}

/// North is towards smaller z, south towards larger z, east towards larger x and west towards
/// smaller x.
pub proof fn directions_are_unit_steps(d: Dir)
    ensures
        d == Dir::North <==> d.delta() == (0int, -1int),
        d == Dir::South <==> d.delta() == (0int, 1int),
        d == Dir::East <==> d.delta() == (1int, 0int),
        d == Dir::West <==> d.delta() == (-1int, 0int),
{
}

proof fn lemma_corner_from(field: WallField, x: int, z: int, k: int)
    requires
        0 <= k <= 16,
    ensures
        corner_from(field, x, z, k) is Some <==> exists|m: int|
            k <= m < 16 && elbow(field, x, z, #[trigger] Dir::nth(m / 4), Dir::nth(m % 4)),
        corner_from(field, x, z, k) matches Some(c) ==> exists|h: Dir, v: Dir| #[trigger]
            elbow(field, x, z, h, v) && corner_between(h, v) == Some(c),
    decreases 16 - k,
{
    if k < 16 {
        lemma_corner_from(field, x, z, k + 1);
        if elbow(field, x, z, Dir::nth(k / 4), Dir::nth(k % 4)) {
            assert(elbow(field, x, z, Dir::nth(k / 4), Dir::nth(k % 4)));
        }
    }
}

/// A pillar stands only on interior floor, between a horizontal wall on one side and a vertical
/// wall on a perpendicular side, in the corner that these two make.
pub proof fn pillars_stand_between_two_walls(field: WallField, x: int, z: int)
    ensures
        pillar_at(field, x, z) matches Some(c) ==> interior(field, x, z) && exists|h: Dir, v: Dir|
            #[trigger] elbow(field, x, z, h, v) && corner_between(h, v) == Some(c) && field.horizontal(
                x + h.delta().0,
                z + h.delta().1,
            ) && field.vertical(x + v.delta().0, z + v.delta().1),
{
    lemma_corner_from(field, x, z, 0);
    if let Some(c) = pillar_at(field, x, z) {
        let (h, v) = choose|h: Dir, v: Dir| #[trigger]
            elbow(field, x, z, h, v) && corner_between(h, v) == Some(c);
        assert(elbow(field, x, z, h, v));
    }
}

/// Where the tile inside a door is not open, the door cell is its floor if that is open.
pub proof fn door_cells_come_second(cells: Cells, ep: HouseEntrypoint)
    requires
        is_edge(ep.outward_edge),
        ({
            let inside = across(ep.wall_x as int, ep.wall_z as int, facing_edge(ep.outward_edge));
            tile_at(cells, inside.0, inside.1) != DraftTile::Open
        }),
        tile_at(cells, ep.wall_x as int, ep.wall_z as int) == DraftTile::Open,
    ensures
        entry_floor(cells, ep, 0) == Some((ep.wall_x as int, ep.wall_z as int)),
{
    assert(entry_floor(cells, ep, 1) == Some((ep.wall_x as int, ep.wall_z as int)));
    assert(entry_floor(cells, ep, 0) == entry_floor(cells, ep, 1));
}

/// Waves of later houses cover those of earlier ones, and in one house marble covers glass.
pub proof fn later_waves_cover_earlier_ones(
    cells: Cells,
    houses: Seq<House>,
    radii: Seq<(i32, i32)>,
    n: nat,
    t: Tile,
    before: TileStyle,
)
    requires
        0 < n <= houses.len(),
    ensures
        in_marble(cells, houses[n - 1], radii[n - 1].1 as int, t) ==> crawled(
            cells,
            houses,
            radii,
            n,
            t,
            before,
        ) == TileStyle::FloorMarble,
        !in_marble(cells, houses[n - 1], radii[n - 1].1 as int, t) && in_glass(
            cells,
            houses[n - 1],
            radii[n - 1].0 as int,
            t,
        ) ==> crawled(cells, houses, radii, n, t, before) == TileStyle::FloorGlass,
{
}

proof fn lemma_row_parts(f: spec_fn(int, int) -> bool, x0: int, x1: int, z: int)
    requires
        x0 <= x1,
    ensures
        row_count(f, x0, x1, z) + row_count(|u: int, w: int| !f(u, w), x0, x1, z) == x1 - x0,
    decreases x1 - x0,
{
    if x1 > x0 {
        lemma_row_parts(f, x0, x1 - 1, z);
    }
}

/// Counting counts every cell of a box once: the cells that pass a test and those that do not
/// make up the whole box.
pub proof fn counted_cells_make_up_the_box(
    f: spec_fn(int, int) -> bool,
    x0: int,
    z0: int,
    x1: int,
    z1: int,
)
    requires
        x0 <= x1,
        z0 <= z1,
    ensures
        box_count(f, x0, z0, x1, z1) + box_count(|u: int, w: int| !f(u, w), x0, z0, x1, z1) == (x1
            - x0) * (z1 - z0),
        (forall|x: int, z: int| x0 <= x < x1 && z0 <= z < z1 ==> #[trigger] f(x, z)) ==> box_count(
            f,
            x0,
            z0,
            x1,
            z1,
        ) == (x1 - x0) * (z1 - z0),
        (forall|x: int, z: int| x0 <= x < x1 && z0 <= z < z1 ==> !#[trigger] f(x, z)) ==> box_count(
            f,
            x0,
            z0,
            x1,
            z1,
        ) == 0,
    decreases z1 - z0,
{
    let not = |u: int, w: int| !f(u, w);
    if z1 > z0 {
        counted_cells_make_up_the_box(f, x0, z0, x1, z1 - 1);
        lemma_row_parts(f, x0, x1, z1 - 1);
        assert((x1 - x0) * (z1 - z0) == (x1 - x0) * (z1 - 1 - z0) + (x1 - x0)) by (nonlinear_arith);
        if forall|x: int, z: int| x0 <= x < x1 && z0 <= z < z1 ==> #[trigger] f(x, z) {
            lemma_row_all(f, x0, x1, z1 - 1);
        }
        if forall|x: int, z: int| x0 <= x < x1 && z0 <= z < z1 ==> !#[trigger] f(x, z) {
            lemma_row_none(f, x0, x1, z1 - 1);
        }
    } else {
        assert((x1 - x0) * (z1 - z0) == 0) by (nonlinear_arith)
            requires
                z1 == z0,
        ;
    }
}

proof fn lemma_row_all(f: spec_fn(int, int) -> bool, x0: int, x1: int, z: int)
    requires
        x0 <= x1,
        forall|x: int| x0 <= x < x1 ==> #[trigger] f(x, z),
    ensures
        row_count(f, x0, x1, z) == x1 - x0,
    decreases x1 - x0,
{
    if x1 > x0 {
        lemma_row_all(f, x0, x1 - 1, z);
    }
}

proof fn lemma_row_none(f: spec_fn(int, int) -> bool, x0: int, x1: int, z: int)
    requires
        x0 <= x1,
        forall|x: int| x0 <= x < x1 ==> !#[trigger] f(x, z),
    ensures
        row_count(f, x0, x1, z) == 0,
    decreases x1 - x0,
{
    if x1 > x0 {
        lemma_row_none(f, x0, x1 - 1, z);
    }
}

/// Corridors of a side keep apart: no two of them cover one index, nor two indices next to each
/// other.
pub proof fn corridors_keep_apart(
    list: Seq<RoadConnector>,
    lo: int,
    hi: int,
    i: int,
    j: int,
    k: int,
)
    requires
        laid_out(list, lo, hi),
        0 <= i < list.len(),
        0 <= j < list.len(),
        in_corridor(list[i], k),
    ensures
        lo <= k < hi,
        in_corridor(list[j], k) ==> i == j,
        in_corridor(list[j], k + 1) ==> i == j,
{
    assert(list[i] == list[i] && list[j] == list[j]);
}

/// Grids lie row by row: the value at (x, z) is in row `z` and column `x`.
pub proof fn grids_lie_row_by_row<T>(grid: Vec<Vec<T>>, x: int, z: int)
    ensures
        value_at(grid, x, z) == grid@[z]@[x],
{
}

/// A chunk shows its draft tile by tile: the cell in column `l.x` and row `l.y` of its ground
/// floor is what the tile there becomes, and its styles and lamps are those of that tile.
pub proof fn chunks_show_their_draft(
    draft: MapDraft,
    coord: ChunkCoord,
    map0: Hypermap<CellType>,
    map1: Hypermap<CellType>,
    styles0: Hypermap<TileStyle>,
    styles1: Hypermap<TileStyle>,
    lamps0: Hypermap<LampDecoration>,
    lamps1: Hypermap<LampDecoration>,
    l: LocalCoord,
)
    requires
        maps_written(draft, coord, map0, map1, styles0, styles1, lamps0, lamps1),
        draft.wf(),
        l.in_chunk(),
        l.x < draft.size,
        l.y < draft.size,
    ensures
        becomes(tile_at(draft.cells, l.x as int, l.y as int), map1.chunk(coord).at(l, 0)),
        styles1.chunk(coord).at(l, 0) == draft.floor_styles@[l.y as int]@[l.x as int],
        lamps1.chunk(coord).at(l, 0) == draft.lamps@[l.y as int]@[l.x as int],
{
    assert(draft.tile(l.x as int, l.y as int) == tile_at(draft.cells, l.x as int, l.y as int));
}

/// Seeds keep at least eighteen columns and rows apart from each other.
pub proof fn seeds_keep_their_distance(seeds: Seq<Tile>, i: int, j: int)
    requires
        spread_out(seeds),
        0 <= i < j < seeds.len(),
    ensures
        ({
            let (dx, dz) = (seeds[j].0 - seeds[i].0, seeds[j].1 - seeds[i].1);
            &&& dx + dz >= 18 || dx - dz >= 18 || -dx + dz >= 18 || -dx - dz >= 18
        }),
{
    assert(tile_distance(seeds[i], seeds[j]) >= 18);
}

/// Rooms between inner walls are at least two cells wide both ways and six cells large.
pub proof fn split_rooms_have_room(h: Seq<i32>, v: Seq<i32>, i: int, j: int)
    requires
        rooms_fit(h, v),
        0 <= i < h.len() - 1,
        0 <= j < v.len() - 1,
    ensures
        h[i + 1] - h[i] >= 2,
        v[j + 1] - v[j] >= 2,
        (h[i + 1] - h[i]) * (v[j + 1] - v[j]) >= 6,
{
    assert(room_fits(h, v, i, j));
    assert(gap(h, i) >= 2);
}

/// Interior floor at the end of a wall run that a perpendicular wall meets gets its pillar: a
/// wall along the rows to the west or east and a wall along the columns to the north or south.
pub proof fn wall_ends_get_their_pillar(field: WallField, x: int, z: int)
    requires
        interior(field, x, z),
        field.horizontal(x - 1, z) || field.horizontal(x + 1, z),
        field.vertical(x, z - 1) || field.vertical(x, z + 1),
    ensures
        pillar_at(field, x, z) is Some,
{
    lemma_corner_from(field, x, z, 0);
    let h = if field.horizontal(x - 1, z) {
        2int
    } else {
        3int
    };
    let v = if field.vertical(x, z - 1) {
        0int
    } else {
        1int
    };
    let m = 4 * h + v;
    assert(m / 4 == h && m % 4 == v);
    assert(elbow(field, x, z, Dir::nth(m / 4), Dir::nth(m % 4)));
}

} // verus!
