//! What becomes of stations: every draft tile has its own kind of cell, a station backs onto
//! the one wall beside it, and a house with room for a charging station ends up with one to
//! three of them.
use vstd::prelude::*;

use crate::map::map_generator::draft::{becomes, tile_at, Cells, DraftTile, MapDraft};
use crate::map::map_generator::grid::{in_grid, value_at};
use crate::map::map_generator::house::House;
use crate::map::map_generator::inner_doors_laws::inner_doors_placed;
use crate::map::map_generator::layout_laws::{
    corridors_only_cross_the_margin, houses_are_made_of_rooms, houses_share_no_cell,
    ponds_spare_the_houses,
};
use crate::map::map_generator::pipeline::{building_course, generation_course};
use crate::map::map_generator::stations::{
    all_depots_placed, chargers_placed, depot_placed, door_reserve, lone_wall, no_site_left,
    reserved, site_at, station_site, stations_placed, stations_put, wall_behind, StationSite,
};
use crate::map::map_generator::step_chunk_connectors::corridors_opened;
use crate::map::map_generator::step_corners::pillars_stamped;
use crate::map::map_generator::step_door::{in_a_house, same_tiles};
use crate::map::map_generator::step_house_doors::{looser, opens_only, same_footprints};
use crate::map::map_generator::step_houses::clustered;
use crate::map::map_generator::step_inner_walls::{
    all_walls_laid, cuts_allowed, leads, one_house_walled, walls_laid,
};
use crate::map::map_generator::step_ponds::ponds_dug;
use crate::map::map_generator::step_rooms::inside_growth;
use crate::map::map_generator::types::HouseEntrypoint;
use crate::map::world_map::{CellType, ChargerFacing, WallCorner, WallMask};

verus! {

/// A draft tile and its cell are of one kind: void is void, open ground is road, a wall keeps
/// its edges, a pillar its corner, and a station or depot the wall that it backs onto; nothing
/// else becomes any of these.
pub proof fn tiles_keep_their_kind(
    tile: DraftTile,
    cell: CellType,
    mask: WallMask,
    corner: WallCorner,
    facing: ChargerFacing,
)
    requires
        becomes(tile, cell),
    ensures
        cell == CellType::Void <==> tile == DraftTile::Void,
        cell == CellType::Road <==> tile == DraftTile::Open,
        cell == CellType::Wall(mask) <==> tile == DraftTile::Wall(mask.edges()),
        cell == CellType::Corner(corner) <==> tile == DraftTile::Corner(corner),
        cell == CellType::Charger(facing) <==> tile == DraftTile::Charger(facing),
        cell == CellType::PartsDepot(facing) <==> tile == DraftTile::PartsDepot(facing),
{
    if let CellType::Wall(own) = cell {
        WallMask::equal_by_edges(mask, own);
    }
}

/// Different tiles become different cells.
pub proof fn different_tiles_become_different_cells(
    tile: DraftTile,
    other: DraftTile,
    cell: CellType,
)
    requires
        becomes(tile, cell),
        becomes(other, cell),
    ensures
        tile == other,
{
}

/// The tile beside (x, z) on the side of a wall: north is towards smaller z, east towards
/// larger x.
pub open spec fn beside(x: int, z: int, facing: ChargerFacing) -> (int, int) {
    match facing {
        ChargerFacing::North => (x, z - 1),
        ChargerFacing::South => (x, z + 1),
        ChargerFacing::East => (x + 1, z),
        ChargerFacing::West => (x - 1, z),
    }
}

/// Whether the tile is a wall or a pillar.
pub open spec fn stands(cells: Cells, at: (int, int)) -> bool {
    tile_at(cells, at.0, at.1) is Wall || tile_at(cells, at.0, at.1) is Corner
}

/// A station may stand just on open ground of the house that no doorway needs, with a wall or
/// pillar on the side that it backs onto and none on the other three sides.
pub proof fn stations_back_onto_their_only_wall(
    cells: Cells,
    house: House,
    x: int,
    z: int,
    facing: ChargerFacing,
)
    ensures
        station_site(cells, house, x, z, facing) <==> {
            &&& tile_at(cells, x, z) == DraftTile::Open
            &&& house.has(x, z)
            &&& !door_reserve(house, x, z)
            &&& stands(cells, beside(x, z, facing))
            &&& stands(cells, (x, z - 1)) ==> facing == ChargerFacing::North
            &&& stands(cells, (x, z + 1)) ==> facing == ChargerFacing::South
            &&& stands(cells, (x + 1, z)) ==> facing == ChargerFacing::East
            &&& stands(cells, (x - 1, z)) ==> facing == ChargerFacing::West
        },
{
    assert(wall_behind(cells, x, z, ChargerFacing::North) == stands(cells, (x, z - 1)));
    assert(wall_behind(cells, x, z, ChargerFacing::South) == stands(cells, (x, z + 1)));
    assert(wall_behind(cells, x, z, ChargerFacing::East) == stands(cells, (x + 1, z)));
    assert(wall_behind(cells, x, z, ChargerFacing::West) == stands(cells, (x - 1, z)));
    assert(wall_behind(cells, x, z, facing) == stands(cells, beside(x, z, facing)));
}

/// A doorway keeps its own cells and the tiles straight before and behind them: those one
/// step across a north or south wall up or down, those across an east or west wall to the left
/// or right.
pub proof fn doorways_keep_their_lane(ep: HouseEntrypoint, x: int, z: int)
    requires
        ep.outward_edge == 1 || ep.outward_edge == 2 || ep.outward_edge == 4 || ep.outward_edge == 8,
    ensures
        reserved(ep, x, z) <==> {
            let across = ep.outward_edge == 4 || ep.outward_edge == 8;
            ||| if across {
                z == ep.wall_z && ep.wall_x - 1 <= x <= ep.wall_x + 1
            } else {
                x == ep.wall_x && ep.wall_z - 1 <= z <= ep.wall_z + 1
            }
            ||| ep.wall2 matches Some(w) && if across {
                z == w.1 && w.0 - 1 <= x <= w.0 + 1
            } else {
                x == w.0 && w.1 - 1 <= z <= w.1 + 1
            }
        },
{
}

/// Whether no charging station stands on the grid.
pub open spec fn without_chargers(cells: Cells) -> bool {
    forall|x: int, z: int| !(#[trigger] tile_at(cells, x, z) is Charger)
}

/// Whether walls, pillars and charging stations stand where they stood.
pub open spec fn keeps_chargers(before: Cells, after: Cells) -> bool {
    forall|x: int, z: int|
        {
            let (was, is) = (tile_at(before, x, z), #[trigger] tile_at(after, x, z));
            &&& (is is Wall || is is Corner) == (was is Wall || was is Corner)
            &&& (is is Charger || was is Charger) ==> is == was
        }
}

proof fn lemma_looser_without(before: Cells, after: Cells)
    requires
        without_chargers(before),
        opens_only(before, after),
    ensures
        without_chargers(after),
{
    assert forall|x: int, z: int| !(#[trigger] tile_at(after, x, z) is Charger) by {
        assert(looser(tile_at(before, x, z), tile_at(after, x, z)));
        assert(!(tile_at(before, x, z) is Charger));
    }
}

proof fn lemma_walls_without(states: Seq<Cells>, houses: Seq<House>, n: int)
    requires
        0 <= n <= houses.len(),
        states.len() > n,
        without_chargers(states[0]),
        forall|i: int|
            0 <= i < n ==> one_house_walled(states[i], states[i + 1], #[trigger] houses[i]),
    ensures
        without_chargers(states[n]),
    decreases n,
{
    if n > 0 {
        lemma_walls_without(states, houses, n - 1);
        let (before, after) = (states[n - 1], states[n]);
        let house = houses[n - 1];
        assert(one_house_walled(states[n - 1], states[n - 1 + 1], house));
        assert forall|x: int, z: int| !(#[trigger] tile_at(after, x, z) is Charger) by {
            assert(!(tile_at(before, x, z) is Charger));
            if house.footprint_area < 30 {
                assert(same_tiles(before, after));
                assert(tile_at(before, x, z) == tile_at(after, x, z));
            } else {
                let (h, v) = choose|h: Seq<i32>, v: Seq<i32>| #[trigger]
                    cuts_allowed(house, h, v) && walls_laid(before, after, house, h, v);
                assert(walls_laid(before, after, house, h, v));
            }
        }
    }
}

/// No step before the stations' own puts up a charging station.
proof fn lemma_course_without(course: Seq<MapDraft>, before: MapDraft, after: MapDraft)
    requires
        building_course(course, before, after),
        without_chargers(before.cells),
    ensures
        without_chargers(course[7].cells),
{
    assert forall|x: int, z: int| !(#[trigger] tile_at(course[1].cells, x, z) is Charger) by {
        assert(!(tile_at(course[0].cells, x, z) is Charger));
        assert(course[1].tile(x, z) == tile_at(course[1].cells, x, z));
    }
    assert forall|x: int, z: int| !(#[trigger] tile_at(course[2].cells, x, z) is Charger) by {
        assert(!(tile_at(course[1].cells, x, z) is Charger));
        assert(course[2].tile(x, z) == tile_at(course[2].cells, x, z));
    }
    assert forall|x: int, z: int| !(#[trigger] tile_at(course[3].cells, x, z) is Charger) by {
        assert(!(tile_at(course[2].cells, x, z) is Charger));
        assert(pillars_stamped(course[2], course[3]));
        assert(course[3].tile(x, z) == tile_at(course[3].cells, x, z));
    }
    lemma_looser_without(course[3].cells, course[4].cells);
    let houses = course[4].houses@;
    let n = houses.len() as int;
    assert(all_walls_laid(course[4].cells, course[5].cells, houses, n));
    let states = choose|states: Seq<Cells>| #[trigger]
        leads(states, course[4].cells, course[5].cells, n) && forall|i: int|
            0 <= i < n ==> one_house_walled(states[i], states[i + 1], #[trigger] houses[i]);
    lemma_walls_without(states, houses, n);
    assert(inner_doors_placed(course[5], course[6]));
    lemma_looser_without(course[5].cells, course[6].cells);
}

/// Stations of a house leave everything as it was but some of its open cells.
proof fn lemma_put(before: Cells, after: Cells, house: House, sites: Seq<StationSite>, depot: bool)
    requires
        stations_put(before, after, house, sites, depot),
    ensures
        forall|x: int, z: int|
            !house.has(x, z) ==> #[trigger] tile_at(after, x, z) == tile_at(before, x, z),
        forall|x: int, z: int|
            #[trigger] tile_at(after, x, z).solid() == tile_at(before, x, z).solid(),
        depot ==> keeps_chargers(before, after),
{
    assert forall|x: int, z: int|
        {
            &&& !house.has(x, z) ==> #[trigger] tile_at(after, x, z) == tile_at(before, x, z)
            &&& tile_at(after, x, z).solid() == tile_at(before, x, z).solid()
            &&& depot && (tile_at(after, x, z) is Charger || tile_at(before, x, z) is Charger)
                ==> tile_at(after, x, z) == tile_at(before, x, z)
        } by {
        if site_at(sites, x, z) {
            let i = choose|i: int|
                0 <= i < sites.len() && (#[trigger] sites[i]).0 == x && sites[i].1 == z;
            assert(station_site(before, house, sites[i].0 as int, sites[i].1 as int, sites[i].2));
        }
    }
}

proof fn lemma_elsewhere(
    states: Seq<Cells>,
    houses: Seq<House>,
    own: int,
    from: int,
    to: int,
)
    requires
        0 <= from <= to < states.len(),
        to <= houses.len(),
        0 <= own < houses.len(),
        to <= own || own < from,
        forall|i: int|
            from <= i < to ==> chargers_placed(states[i], states[i + 1], #[trigger] houses[i]),
        forall|j: int, x: int, z: int|
            0 <= j < houses.len() && j != own && houses[own].has(x, z) ==> !#[trigger] houses[j].has(
                x,
                z,
            ),
    ensures
        forall|x: int, z: int|
            houses[own].has(x, z) ==> #[trigger] tile_at(states[to], x, z) == tile_at(
                states[from],
                x,
                z,
            ),
        forall|x: int, z: int|
            #[trigger] tile_at(states[to], x, z).solid() == tile_at(states[from], x, z).solid(),
    decreases to - from,
{
    if from < to {
        lemma_elsewhere(states, houses, own, from, to - 1);
        let (before, after) = (states[to - 1], states[to]);
        let house = houses[to - 1];
        assert(chargers_placed(states[to - 1], states[to - 1 + 1], house));
        let sites = choose|sites: Seq<StationSite>| #[trigger]
            stations_put(before, after, house, sites, false);
        lemma_put(before, after, house, sites, false);
        assert forall|x: int, z: int| houses[own].has(x, z) implies #[trigger] tile_at(after, x, z)
            == tile_at(states[from], x, z) by {
            assert(!houses[to - 1].has(x, z));
            assert(tile_at(before, x, z) == tile_at(states[from], x, z));
        }
        assert forall|x: int, z: int| #[trigger] tile_at(after, x, z).solid() == tile_at(
            states[from],
            x,
            z,
        ).solid() by {
            assert(tile_at(before, x, z).solid() == tile_at(states[from], x, z).solid());
        }
    }
}

proof fn lemma_depots_keep_chargers(states: Seq<Cells>, houses: Seq<House>, n: int)
    requires
        0 <= n <= houses.len(),
        states.len() > n,
        forall|i: int| 0 <= i < n ==> depot_placed(states[i], states[i + 1], #[trigger] houses[i]),
    ensures
        keeps_chargers(states[0], states[n]),
    decreases n,
{
    if n > 0 {
        lemma_depots_keep_chargers(states, houses, n - 1);
        let house = houses[n - 1];
        assert(depot_placed(states[n - 1], states[n - 1 + 1], house));
        let sites = choose|sites: Seq<StationSite>| #[trigger]
            stations_put(states[n - 1], states[n], house, sites, true);
        lemma_put(states[n - 1], states[n], house, sites, true);
        assert forall|x: int, z: int|
            {
                let (was, is) = (tile_at(states[0], x, z), #[trigger] tile_at(states[n], x, z));
                &&& (is is Wall || is is Corner) == (was is Wall || was is Corner)
                &&& (is is Charger || was is Charger) ==> is == was
            } by {
            let mid = tile_at(states[n - 1], x, z);
        }
    }
}

/// Whether a charging station with this facing stands on the cell of the finished grid.
pub open spec fn charger_at(
    cells: Vec<Vec<CellType>>,
    x: int,
    z: int,
    facing: ChargerFacing,
) -> bool {
    value_at(cells, x, z) == CellType::Charger(facing)
}

/// Whether these are the charging stations of the house's footprint on the finished grid: no
/// more and no others, each on a cell of its own, with its back to a wall or pillar.
pub open spec fn chargers_are(
    cells: Vec<Vec<CellType>>,
    house: House,
    sites: Seq<StationSite>,
) -> bool {
    &&& forall|x: int, z: int, f: ChargerFacing|
        house.has(x, z) && in_grid(cells@.len() as int, x, z) ==> (#[trigger] charger_at(
            cells,
            x,
            z,
            f,
        ) <==> sites.contains((x as i32, z as i32, f)))
    &&& forall|k: int|
        0 <= k < sites.len() ==> {
            let (x, z, f) = #[trigger] sites[k];
            let (bx, bz) = beside(x as int, z as int, f);
            &&& house.has(x as int, z as int)
            &&& in_grid(cells@.len() as int, bx, bz)
            &&& value_at(cells, bx, bz) is Wall || value_at(cells, bx, bz) is Corner
        }
    &&& forall|k: int, m: int|
        0 <= k < m < sites.len() ==> !((#[trigger] sites[k]).0 == (#[trigger] sites[m]).0
            && sites[k].1 == sites[m].1)
}

/// Whether a charging station could stand somewhere in the house.
pub open spec fn has_room_for_a_station(cells: Cells, house: House) -> bool {
    exists|x: int, z: int, f: ChargerFacing| #[trigger] station_site(cells, house, x, z, f)
}

/// Whether the cell belongs to the house or has a neighbour that does.
pub open spec fn close_to(house: House, x: int, z: int) -> bool {
    house.has(x, z) || house.has(x, z - 1) || house.has(x, z + 1) || house.has(x - 1, z) || house.has(
        x + 1,
        z,
    )
}

/// Whether a wall, a pillar or a charging station stays what it is and nothing else becomes a
/// charging station.
pub open spec fn outlasts(was: DraftTile, is: DraftTile) -> bool {
    (was is Wall || was is Corner || was is Charger || is is Charger) ==> is == was
}

proof fn lemma_houses_keep_chargers(
    course: Seq<MapDraft>,
    before: MapDraft,
    after: MapDraft,
    done: MapDraft,
    cells: Vec<Vec<CellType>>,
    own: int,
)
    requires
        building_course(course, before, after),
        without_chargers(before.cells),
        0 <= own < after.houses@.len(),
        forall|j: int, x: int, z: int|
            0 <= j < after.houses@.len() && j != own && after.houses@[own].has(x, z)
                ==> !#[trigger] after.houses@[j].has(x, z),
        forall|x: int, z: int|
            close_to(after.houses@[own], x, z) ==> outlasts(
                after.tile(x, z),
                #[trigger] done.tile(x, z),
            ),
        cells@.len() == done.cells@.len(),
        forall|x: int, z: int|
            in_grid(cells@.len() as int, x, z) ==> becomes(
                done.tile(x, z),
                #[trigger] value_at(cells, x, z),
            ),
    ensures
        exists|sites: Seq<StationSite>| #[trigger]
            chargers_are(cells, after.houses@[own], sites) && sites.len() <= 3 && (
            has_room_for_a_station(course[7].cells, after.houses@[own]) <==> sites.len() >= 1),
{
    lemma_course_without(course, before, after);
    let houses = course[7].houses@;
    let n = houses.len() as int;
    let house = houses[own];
    assert(houses == after.houses@);
    let (c7, c8) = (course[7].cells, course[8].cells);
    assert(stations_placed(course[7], course[8]));
    let states = choose|states: Seq<Cells>| #[trigger]
        leads(states, c7, c8, n) && forall|i: int|
            0 <= i < n ==> chargers_placed(states[i], states[i + 1], #[trigger] houses[i]);
    assert(chargers_placed(states[own], states[own + 1], houses[own]));
    let (start, filled) = (states[own], states[own + 1]);
    let sites = choose|sites: Seq<StationSite>| #[trigger]
        stations_put(start, filled, house, sites, false) && sites.len() <= 3 && (sites.len() == 0
            ==> no_site_left(start, house));
    lemma_elsewhere(states, houses, own, 0, own);
    lemma_put(start, filled, house, sites, false);
    lemma_elsewhere(states, houses, own, own + 1, n);
    assert(all_depots_placed(c8, course[9].cells, houses, n));
    let later = choose|later: Seq<Cells>| #[trigger]
        leads(later, c8, course[9].cells, n) && forall|i: int|
            0 <= i < n ==> depot_placed(later[i], later[i + 1], #[trigger] houses[i]);
    lemma_depots_keep_chargers(later, houses, n);
    assert(keeps_chargers(c8, after.cells));
    assert forall|x: int, z: int, f: ChargerFacing| house.has(x, z) implies (#[trigger] station_site(
        c7,
        house,
        x,
        z,
        f,
    ) <==> station_site(start, house, x, z, f)) by {
        assert(tile_at(start, x, z) == tile_at(c7, x, z));
        lemma_same_lone_wall(c7, start, x, z, f);
    }
    if has_room_for_a_station(c7, house) {
        let (x, z, f) = choose|x: int, z: int, f: ChargerFacing| #[trigger]
            station_site(c7, house, x, z, f);
        assert(station_site(start, house, x, z, f));
    }
    if sites.len() >= 1 {
        let s = sites[0];
        assert(station_site(start, house, s.0 as int, s.1 as int, s.2));
        assert(station_site(c7, house, s.0 as int, s.1 as int, s.2));
    }
    assert forall|x: int, z: int, f: ChargerFacing|
        house.has(x, z) && in_grid(cells@.len() as int, x, z) implies (#[trigger] charger_at(
        cells,
        x,
        z,
        f,
    ) <==> sites.contains((x as i32, z as i32, f))) by {
        let tile = tile_at(after.cells, x, z);
        assert(close_to(house, x, z));
        assert(outlasts(after.tile(x, z), done.tile(x, z)));
        assert(becomes(done.tile(x, z), value_at(cells, x, z)));
        assert(tile_at(c8, x, z) == tile_at(filled, x, z));
        assert(tile_at(start, x, z) == tile_at(c7, x, z));
        assert(!(tile_at(c7, x, z) is Charger));
        assert(tile == DraftTile::Charger(f) <==> tile_at(filled, x, z) == DraftTile::Charger(f));
        if site_at(sites, x, z) {
            let i = choose|i: int|
                0 <= i < sites.len() && (#[trigger] sites[i]).0 == x && sites[i].1 == z;
            assert(tile_at(filled, x, z) == DraftTile::Charger(sites[i].2));
            assert(sites[i] == (x as i32, z as i32, sites[i].2));
            if sites.contains((x as i32, z as i32, f)) {
                let k = choose|k: int|
                    0 <= k < sites.len() && sites[k] == (x as i32, z as i32, f);
                if k < i {
                    assert(!(sites[k].0 == sites[i].0 && sites[k].1 == sites[i].1));
                } else if i < k {
                    assert(!(sites[i].0 == sites[k].0 && sites[i].1 == sites[k].1));
                }
            }
        } else {
            assert(tile_at(filled, x, z) == tile_at(start, x, z));
            if sites.contains((x as i32, z as i32, f)) {
                let k = choose|k: int|
                    0 <= k < sites.len() && sites[k] == (x as i32, z as i32, f);
                assert(sites[k].0 == x && sites[k].1 == z);
            }
        }
    }
    assert forall|k: int| 0 <= k < sites.len() implies {
        let (x, z, f) = #[trigger] sites[k];
        let (bx, bz) = beside(x as int, z as int, f);
        &&& house.has(x as int, z as int)
        &&& in_grid(cells@.len() as int, bx, bz)
        &&& value_at(cells, bx, bz) is Wall || value_at(cells, bx, bz) is Corner
    } by {
        let (x, z, f) = sites[k];
        let (bx, bz) = beside(x as int, z as int, f);
        assert(station_site(start, house, x as int, z as int, f));
        stations_back_onto_their_only_wall(start, house, x as int, z as int, f);
        assert(tile_at(start, bx, bz).solid());
        assert(tile_at(filled, bx, bz).solid());
        assert(tile_at(c8, bx, bz).solid());
        let tile = tile_at(after.cells, bx, bz);
        assert(tile is Wall || tile is Corner);
        assert(close_to(house, bx, bz));
        assert(outlasts(after.tile(bx, bz), done.tile(bx, bz)));
        assert(becomes(done.tile(bx, bz), value_at(cells, bx, bz)));
    }
    assert(chargers_are(cells, house, sites));
}

/// A house with room for a charging station ends up with one to three of them in its footprint,
/// and each of these backs onto a wall; a house without room ends up with none. It shares no
/// cell with another house, and no station stood there before.
pub proof fn finished_houses_have_their_chargers(
    course: Seq<MapDraft>,
    before: MapDraft,
    after: MapDraft,
    cells: Vec<Vec<CellType>>,
    own: int,
)
    requires
        building_course(course, before, after),
        without_chargers(before.cells),
        0 <= own < after.houses@.len(),
        forall|j: int, x: int, z: int|
            0 <= j < after.houses@.len() && j != own && after.houses@[own].has(x, z)
                ==> !#[trigger] after.houses@[j].has(x, z),
        cells@.len() == after.cells@.len(),
        forall|x: int, z: int|
            in_grid(cells@.len() as int, x, z) ==> becomes(
                after.tile(x, z),
                #[trigger] value_at(cells, x, z),
            ),
    ensures
        exists|sites: Seq<StationSite>| #[trigger]
            chargers_are(cells, after.houses@[own], sites) && sites.len() <= 3 && (
            has_room_for_a_station(course[7].cells, after.houses@[own]) <==> sites.len() >= 1),
{
    lemma_houses_keep_chargers(course, before, after, after, cells, own);
}

/// Every house of a generated map that had room for a charging station has one to three of them
/// in its footprint, each backing onto a wall, and a house without room has none.
pub proof fn generated_houses_have_their_chargers(
    course: Seq<MapDraft>,
    steps: Seq<MapDraft>,
    before: MapDraft,
    done: MapDraft,
    cells: Vec<Vec<CellType>>,
    own: int,
)
    requires
        before.wf(),
        forall|x: int, z: int| #[trigger] before.tile(x, z) == DraftTile::Void,
        generation_course(course, before, done),
        building_course(steps, course[5], course[6]),
        0 <= own < done.houses@.len(),
        cells@.len() == done.cells@.len(),
        forall|x: int, z: int|
            in_grid(cells@.len() as int, x, z) ==> becomes(
                done.tile(x, z),
                #[trigger] value_at(cells, x, z),
            ),
    ensures
        exists|sites: Seq<StationSite>| #[trigger]
            chargers_are(cells, done.houses@[own], sites) && sites.len() <= 3 && (
            has_room_for_a_station(steps[7].cells, done.houses@[own]) <==> sites.len() >= 1),
{
    let (start, after) = (course[5], course[6]);
    let records = course[4].room_records@;
    assert(done.houses@ == after.houses@);
    assert(clustered(records, start.houses@));
    assert(same_footprints(start.houses@, after.houses@));
    assert(without_chargers(start.cells)) by {
        assert forall|x: int, z: int| !(#[trigger] tile_at(start.cells, x, z) is Charger) by {
            assert(before.tile(x, z) == DraftTile::Void);
            assert(course[1].tile(x, z) == tile_at(course[1].cells, x, z));
            assert(start.cells == course[1].cells);
        }
    }
    assert forall|j: int, x: int, z: int|
        0 <= j < after.houses@.len() && j != own && after.houses@[own].has(x, z) implies !(
    #[trigger] after.houses@[j].has(x, z)) by {
        assert(start.houses@[j].same_footprint(after.houses@[j]));
        assert(start.houses@[own].same_footprint(after.houses@[own]));
        if j < own {
            houses_share_no_cell(records, start.houses@, j, own, x, z);
        } else {
            houses_share_no_cell(records, start.houses@, own, j, x, z);
        }
    }
    let house = after.houses@[own];
    assert forall|x: int, z: int| close_to(house, x, z) implies outlasts(
        after.tile(x, z),
        #[trigger] done.tile(x, z),
    ) by {
        let (u, w) = if house.has(x, z) {
            (x, z)
        } else if house.has(x, z - 1) {
            (x, z - 1)
        } else if house.has(x, z + 1) {
            (x, z + 1)
        } else if house.has(x - 1, z) {
            (x - 1, z)
        } else {
            (x + 1, z)
        };
        assert(start.houses@[own].same_footprint(after.houses@[own]));
        assert(start.houses@[own].has(u, w));
        assert(in_a_house(start.houses@, u, w));
        houses_are_made_of_rooms(records, start.houses@, u, w);
        let k = choose|k: int| 0 <= k < records.len() && (#[trigger] records[k]).bounds.has(u, w);
        assert(inside_growth(records, course[3].bounds));
        assert(course[3].bounds.grow_lo <= records[k].bounds.x0);
        assert(course[3].bounds == before.bounds && before.bounds.of(
            before.size as int,
            before.margin as int,
        ));
        let (was, is) = (after.tile(x, z), done.tile(x, z));
        if was is Wall || was is Corner || was is Charger {
            stations_outlast_ponds_and_corridors(after, course[7], done, x, z, was);
        }
        if is is Charger {
            stations_outlast_ponds_and_corridors(after, course[7], done, x, z, is);
        }
    }
    lemma_houses_keep_chargers(steps, start, after, done, cells, own);
}

proof fn lemma_same_lone_wall(a: Cells, b: Cells, x: int, z: int, f: ChargerFacing)
    requires
        forall|u: int, w: int| #[trigger] tile_at(b, u, w).solid() == tile_at(a, u, w).solid(),
    ensures
        lone_wall(a, x, z, f) == lone_wall(b, x, z, f),
{
    assert forall|g: ChargerFacing| #[trigger] wall_behind(a, x, z, g) == wall_behind(b, x, z, g) by {
        assert(tile_at(b, x + g.delta().0, z + g.delta().1).solid() == tile_at(
            a,
            x + g.delta().0,
            z + g.delta().1,
        ).solid());
    }
    assert(wall_behind(a, x, z, f) == wall_behind(b, x, z, f));
    if lone_wall(a, x, z, f) {
        assert forall|g: ChargerFacing| g != f implies !#[trigger] wall_behind(b, x, z, g) by {
            assert(!wall_behind(a, x, z, g));
        }
    }
    if lone_wall(b, x, z, f) {
        assert forall|g: ChargerFacing| g != f implies !#[trigger] wall_behind(a, x, z, g) by {
            assert(!wall_behind(b, x, z, g));
        }
    }
}

/// Stations and walls outlast what comes after the houses: ponds and corridors leave a charging
/// station, a depot, a wall or a pillar inside the margin where it is, and put up none.
pub proof fn stations_outlast_ponds_and_corridors(
    built: MapDraft,
    dug: MapDraft,
    done: MapDraft,
    x: int,
    z: int,
    tile: DraftTile,
)
    requires
        ponds_dug(built, dug),
        corridors_opened(dug, done),
        built.margin < x < built.size - built.margin - 1,
        built.margin < z < built.size - built.margin - 1,
        tile != DraftTile::Open,
        tile != DraftTile::Void,
    ensures
        done.tile(x, z) == tile <==> built.tile(x, z) == tile,
{
    ponds_spare_the_houses(built, dug, x, z);
    corridors_only_cross_the_margin(dug, done, x, z);
}

/// Whether the grids differ at (x, z) alone, where open ground became a parts depot.
pub open spec fn one_depot_put(
    before: Cells,
    after: Cells,
    x: int,
    z: int,
    facing: ChargerFacing,
) -> bool {
    &&& tile_at(before, x, z) == DraftTile::Open
    &&& tile_at(after, x, z) == DraftTile::PartsDepot(facing)
    &&& stands(before, beside(x, z, facing))
    &&& forall|u: int, w: int|
        !(u == x && w == z) ==> #[trigger] tile_at(after, u, w) == tile_at(before, u, w)
}

/// A house with room for a station gets one parts depot in its footprint, which backs onto a
/// wall; a house without room stays as it is.
pub proof fn houses_get_one_depot(before: Cells, after: Cells, house: House)
    requires
        depot_placed(before, after, house),
    ensures
        has_room_for_a_station(before, house) ==> exists|x: int, z: int, f: ChargerFacing|
            house.has(x, z) && #[trigger] one_depot_put(before, after, x, z, f),
        !has_room_for_a_station(before, house) ==> forall|x: int, z: int| #[trigger]
            tile_at(after, x, z) == tile_at(before, x, z),
{
    let sites = choose|sites: Seq<StationSite>| #[trigger]
        stations_put(before, after, house, sites, true) && sites.len() <= 1 && (sites.len() == 0
            ==> no_site_left(before, house));
    if sites.len() == 0 {
        assert forall|x: int, z: int| #[trigger] tile_at(after, x, z) == tile_at(before, x, z) by {
            assert(!site_at(sites, x, z));
        }
    } else {
        let (x, z, f) = sites[0];
        assert(station_site(before, house, x as int, z as int, f));
        stations_back_onto_their_only_wall(before, house, x as int, z as int, f);
        assert forall|u: int, w: int| !(u == x && w == z) implies #[trigger] tile_at(after, u, w)
            == tile_at(before, u, w) by {
            assert(!site_at(sites, u, w));
        }
        assert(one_depot_put(before, after, x as int, z as int, f));
    }
}

} // verus!
