//! Steps 12 and 13: charging stations and parts depots, set against interior walls.
//!
//! A charging station is a walkable metal pad whose glowing cube hangs on the wall behind
//! it; a parts depot is a walkable storage cabinet. Placement rules are the same: inside
//! the house, **backing onto a wall**, and **not in a corner**. Concretely a candidate is an
//! interior `Open` cell with **exactly one** orthogonal neighbor that is a wall — that lone
//! wall side becomes its [`ChargerFacing`]. Doorway tiles are excluded.
use rand::rngs::StdRng;
use vstd::prelude::*;

use crate::map::map_generator::draft::{
    get_tile, set_tile, sound, tile_at, Cells, DraftTile, MapDraft,
};
use crate::map::map_generator::grid::in_grid;
use crate::map::map_generator::house::{house_fits, House};
use crate::map::map_generator::step_door::{edge_delta, lemma_in_box, outward_delta};
use crate::map::map_generator::step_inner_walls::leads;
use crate::map::map_generator::types::HouseEntrypoint;
use crate::map::world_map::ChargerFacing;
use crate::rng;

verus! {

/// Maximum charging stations placed in one house (actual count is random `1..=MAX`).
const MAX_CHARGERS_PER_HOUSE: i32 = 3;

/// Whether (x, z) is the cell, the tile inside it or the tile outside it.
pub open spec fn in_door_lane(cell: (i32, i32), edge: u8, x: int, z: int) -> bool {
    let (dx, dz) = edge_delta(edge);
    ||| x == cell.0 && z == cell.1
    ||| x == cell.0 + dx && z == cell.1 + dz
    ||| x == cell.0 - dx && z == cell.1 - dz
}

/// Whether the tile must stay free for the doorway: its door cells and the tiles on both
/// sides of them.
pub open spec fn reserved(ep: HouseEntrypoint, x: int, z: int) -> bool {
    in_door_lane((ep.wall_x, ep.wall_z), ep.outward_edge, x, z) || (ep.wall2 matches Some(w)
        && in_door_lane(w, ep.outward_edge, x, z))
}

/// Whether the tile must stay free for one of the doorways of the house.
pub open spec fn door_reserve(house: House, x: int, z: int) -> bool {
    (house.entry matches Some(ep) && reserved(ep, x, z)) || (house.entry2 matches Some(ep)
        && reserved(ep, x, z))
}

fn lane_holds(cell: (i32, i32), edge: u8, x: i32, z: i32) -> (yes: bool)
    ensures
        yes == in_door_lane(cell, edge, x as int, z as int),
{
    let (dx, dz) = outward_delta(edge);
    let ox: i64 = x as i64 - cell.0 as i64;
    let oz: i64 = z as i64 - cell.1 as i64;
    let (dx, dz): (i64, i64) = (dx as i64, dz as i64);
    (ox == 0 && oz == 0) || (ox == dx && oz == dz) || (ox == -dx && oz == -dz)
}

/// Whether the tile must stay free for the doorway.
pub fn entrypoint_reserves(ep: &HouseEntrypoint, x: i32, z: i32) -> (yes: bool)
    ensures
        yes == reserved(*ep, x as int, z as int),
{
    if lane_holds((ep.wall_x, ep.wall_z), ep.outward_edge, x, z) {
        return true;
    }
    match ep.wall2 {
        Some(w) => lane_holds(w, ep.outward_edge, x, z),
        None => false,
    }
}

fn house_reserves(house: &House, x: i32, z: i32) -> (yes: bool)
    ensures
        yes == door_reserve(*house, x as int, z as int),
{
    let first: bool = match &house.entry {
        Some(ep) => entrypoint_reserves(ep, x, z),
        None => false,
    };
    let second: bool = match &house.entry2 {
        Some(ep) => entrypoint_reserves(ep, x, z),
        None => false,
    };
    first || second
}

/// Whether the neighbour in the facing direction is a wall or a pillar.
pub open spec fn wall_behind(cells: Cells, x: int, z: int, facing: ChargerFacing) -> bool {
    tile_at(cells, x + facing.delta().0, z + facing.delta().1).solid()
}

/// Whether the neighbour in the facing direction is the only wall or pillar around (x, z).
pub open spec fn lone_wall(cells: Cells, x: int, z: int, facing: ChargerFacing) -> bool {
    wall_behind(cells, x, z, facing) && forall|other: ChargerFacing|
        other != facing ==> !#[trigger] wall_behind(cells, x, z, other)
}

/// Whether a station of the house may stand at (x, z), its back to the named wall.
pub open spec fn station_site(
    cells: Cells,
    house: House,
    x: int,
    z: int,
    facing: ChargerFacing,
) -> bool {
    &&& tile_at(cells, x, z) == DraftTile::Open
    &&& house.has(x, z)
    &&& !door_reserve(house, x, z)
    &&& lone_wall(cells, x, z, facing)
}

fn is_wall_at(cells: &Cells, x: i32, z: i32, facing: ChargerFacing) -> (yes: bool)
    requires
        sound(*cells, cells@.len() as int),
        in_grid(cells@.len() as int, x as int, z as int),
    ensures
        yes == wall_behind(*cells, x as int, z as int, facing),
{
    let (dx, dz) = facing.wall_delta();
    matches!(get_tile(cells, x + dx, z + dz), DraftTile::Wall(_) | DraftTile::Corner(_))
}

/// The lone wall around (x, z), if exactly one neighbour is a wall.
fn lone_wall_side(cells: &Cells, x: i32, z: i32) -> (side: Option<ChargerFacing>)
    requires
        sound(*cells, cells@.len() as int),
        in_grid(cells@.len() as int, x as int, z as int),
    ensures
        match side {
            Some(f) => lone_wall(*cells, x as int, z as int, f),
            None => forall|f: ChargerFacing| !#[trigger] lone_wall(*cells, x as int, z as int, f),
        },
{
    let n: bool = is_wall_at(cells, x, z, ChargerFacing::North);
    let s: bool = is_wall_at(cells, x, z, ChargerFacing::South);
    let e: bool = is_wall_at(cells, x, z, ChargerFacing::East);
    let w: bool = is_wall_at(cells, x, z, ChargerFacing::West);
    if n && !s && !e && !w {
        Some(ChargerFacing::North)
    } else if !n && s && !e && !w {
        Some(ChargerFacing::South)
    } else if !n && !s && e && !w {
        Some(ChargerFacing::East)
    } else if !n && !s && !e && w {
        Some(ChargerFacing::West)
    } else {
        proof {
            assert forall|f: ChargerFacing| !#[trigger] lone_wall(*cells, x as int, z as int, f) by {
                assert(wall_behind(*cells, x as int, z as int, ChargerFacing::North) == n);
                assert(wall_behind(*cells, x as int, z as int, ChargerFacing::South) == s);
                assert(wall_behind(*cells, x as int, z as int, ChargerFacing::East) == e);
                assert(wall_behind(*cells, x as int, z as int, ChargerFacing::West) == w);
            }
        }
        None
    }
}

/// A place for a station: cell and facing.
pub type StationSite = (i32, i32, ChargerFacing);

/// Whether the list holds just the station sites of the house.
pub open spec fn lists_stations(cells: Cells, house: House, sites: Seq<StationSite>) -> bool {
    &&& forall|i: int|
        0 <= i < sites.len() ==> station_site(
            cells,
            house,
            (#[trigger] sites[i]).0 as int,
            sites[i].1 as int,
            sites[i].2,
        )
    &&& forall|x: int, z: int, f: ChargerFacing| #[trigger]
        station_site(cells, house, x, z, f) ==> sites.contains((x as i32, z as i32, f))
}

spec fn stations_before(cells: Cells, house: House, sites: Seq<StationSite>, x: int, z: int) -> bool {
    &&& forall|i: int|
        0 <= i < sites.len() ==> station_site(
            cells,
            house,
            (#[trigger] sites[i]).0 as int,
            sites[i].1 as int,
            sites[i].2,
        )
    &&& forall|u: int, w: int, f: ChargerFacing| #[trigger]
        station_site(cells, house, u, w, f) && (w < z || w == z && u < x) ==> sites.contains(
            (u as i32, w as i32, f),
        )
}

/// The station sites of a house.
pub fn station_sites(cells: &Cells, house: &House) -> (sites: Vec<StationSite>)
    requires
        sound(*cells, cells@.len() as int),
        house_fits(*house, cells@.len() as int),
    ensures
        lists_stations(*cells, *house, sites@),
{
    let ghost n = cells@.len() as int;
    let mut sites: Vec<StationSite> = Vec::new();
    let mut z: i32 = house.z0;
    while z <= house.z1
        invariant
            sound(*cells, n),
            n == cells@.len(),
            house_fits(*house, n),
            house.z0 <= z <= house.z1 + 1,
            stations_before(*cells, *house, sites@, house.x0 as int, z as int),
        decreases house.z1 + 1 - z,
    {
        let mut x: i32 = house.x0;
        while x <= house.x1
            invariant
                sound(*cells, n),
                n == cells@.len(),
                house_fits(*house, n),
                house.z0 <= z <= house.z1,
                house.x0 <= x <= house.x1 + 1,
                stations_before(*cells, *house, sites@, x as int, z as int),
            decreases house.x1 + 1 - x,
        {
            let ghost before = sites@;
            if get_tile(cells, x, z) == DraftTile::Open && house.contains(x, z) && !house_reserves(
                house,
                x,
                z,
            ) {
                if let Some(facing) = lone_wall_side(cells, x, z) {
                    sites.push((x, z, facing));
                }
            }
            proof {
                assert forall|u: int, w: int, f: ChargerFacing| #[trigger]
                    station_site(*cells, *house, u, w, f) && (w < z || w == z && u < x + 1) implies sites@.contains(
                    (u as i32, w as i32, f)) by {
                    if u == x && w == z {
                        assert(lone_wall(*cells, u, w, f));
                        assert(sites@.len() > before.len());
                        let g = sites@[before.len() as int].2;
                        assert(lone_wall(*cells, u, w, g));
                        assert(wall_behind(*cells, u, w, f) && wall_behind(*cells, u, w, g));
                        assert(sites@[before.len() as int] == (x, z, f));
                    } else {
                        let k = choose|k: int|
                            0 <= k < before.len() && before[k] == (u as i32, w as i32, f);
                        assert(before.contains((u as i32, w as i32, f)));
                        assert(sites@[k] == (u as i32, w as i32, f));
                    }
                }
            }
            x += 1;
        }
        proof {
            assert forall|u: int, w: int, f: ChargerFacing| #[trigger]
                station_site(*cells, *house, u, w, f) && (w < z + 1 || w == z + 1 && u
                    < house.x0) implies sites@.contains((u as i32, w as i32, f)) by {
                lemma_in_box(*house, n, u, w);
            }
        }
        z += 1;
    }
    proof {
        assert forall|u: int, w: int, f: ChargerFacing| #[trigger]
            station_site(*cells, *house, u, w, f) implies sites@.contains((u as i32, w as i32, f)) by {
            lemma_in_box(*house, n, u, w);
        }
    }
    sites
}

/// A random station site; none if there is none.
fn pick_station_site(cells: &Cells, house: &House, rng: &mut StdRng) -> (site: Option<StationSite>)
    requires
        sound(*cells, cells@.len() as int),
        house_fits(*house, cells@.len() as int),
    ensures
        match site {
            Some(s) => station_site(*cells, *house, s.0 as int, s.1 as int, s.2) && in_grid(
                cells@.len() as int,
                s.0 as int,
                s.1 as int,
            ),
            None => forall|x: int, z: int, f: ChargerFacing| !#[trigger]
                station_site(*cells, *house, x, z, f),
        },
{
    let sites = station_sites(cells, house);
    if sites.len() == 0 {
        proof {
            assert forall|x: int, z: int, f: ChargerFacing| !#[trigger]
                station_site(*cells, *house, x, z, f) by {
                if station_site(*cells, *house, x, z, f) {
                    assert(sites@.contains((x as i32, z as i32, f)));
                }
            }
        }
        return None;
    }
    let k: usize = rng::index_below(rng, sites.len());
    let s: StationSite = sites[k];
    proof {
        lemma_in_box(*house, cells@.len() as int, s.0 as int, s.1 as int);
    }
    Some(s)
}

/// Whether one of the sites is the cell.
pub open spec fn site_at(sites: Seq<StationSite>, x: int, z: int) -> bool {
    exists|i: int| 0 <= i < sites.len() && (#[trigger] sites[i]).0 == x && sites[i].1 == z
}

/// Whether stations were put at these sites of the house, no cell twice, and nothing else
/// changed.
pub open spec fn stations_put(
    before: Cells,
    after: Cells,
    house: House,
    sites: Seq<StationSite>,
    depot: bool,
) -> bool {
    &&& forall|i: int|
        0 <= i < sites.len() ==> station_site(
            before,
            house,
            (#[trigger] sites[i]).0 as int,
            sites[i].1 as int,
            sites[i].2,
        ) && tile_at(after, sites[i].0 as int, sites[i].1 as int) == (if depot {
            DraftTile::PartsDepot(sites[i].2)
        } else {
            DraftTile::Charger(sites[i].2)
        })
    &&& forall|i: int, j: int|
        0 <= i < j < sites.len() ==> !((#[trigger] sites[i]).0 == (#[trigger] sites[j]).0
            && sites[i].1 == sites[j].1)
    &&& forall|x: int, z: int|
        !site_at(sites, x, z) ==> #[trigger] tile_at(after, x, z) == tile_at(before, x, z)
}

/// Whether no station site of the house is left.
pub open spec fn no_site_left(cells: Cells, house: House) -> bool {
    forall|x: int, z: int, f: ChargerFacing| !#[trigger] station_site(cells, house, x, z, f)
}

/// A further station at a site of what came before.
proof fn lemma_one_more(
    start: Cells,
    before: Cells,
    after: Cells,
    house: House,
    sites: Seq<StationSite>,
    s: StationSite,
)
    requires
        stations_put(start, before, house, sites, false),
        station_site(before, house, s.0 as int, s.1 as int, s.2),
        forall|x: int, z: int| #[trigger]
            tile_at(after, x, z) == if x == s.0 && z == s.1 {
                DraftTile::Charger(s.2)
            } else {
                tile_at(before, x, z)
            },
    ensures
        stations_put(start, after, house, sites.push(s), false),
{
    let more = sites.push(s);
    if site_at(sites, s.0 as int, s.1 as int) {
        let i = choose|i: int|
            0 <= i < sites.len() && (#[trigger] sites[i]).0 == s.0 && sites[i].1 == s.1;
        assert(tile_at(before, sites[i].0 as int, sites[i].1 as int) is Charger);
        assert(false);
    }
    assert(tile_at(start, s.0 as int, s.1 as int) == tile_at(before, s.0 as int, s.1 as int));
    assert forall|x: int, z: int| #[trigger] tile_at(before, x, z).solid() == tile_at(
        start,
        x,
        z,
    ).solid() by {
        if site_at(sites, x, z) {
            let i = choose|i: int|
                0 <= i < sites.len() && (#[trigger] sites[i]).0 == x && sites[i].1 == z;
            assert(tile_at(before, sites[i].0 as int, sites[i].1 as int) is Charger);
            assert(station_site(start, house, sites[i].0 as int, sites[i].1 as int, sites[i].2));
        }
    }
    assert(lone_wall(start, s.0 as int, s.1 as int, s.2)) by {
        assert forall|other: ChargerFacing| other != s.2 implies !#[trigger] wall_behind(
            start,
            s.0 as int,
            s.1 as int,
            other,
        ) by {
            assert(!wall_behind(before, s.0 as int, s.1 as int, other));
            let d = other.delta();
            assert(tile_at(before, s.0 + d.0, s.1 + d.1).solid() == tile_at(
                start,
                s.0 + d.0,
                s.1 + d.1,
            ).solid());
        }
        let d = s.2.delta();
        assert(tile_at(before, s.0 + d.0, s.1 + d.1).solid() == tile_at(
            start,
            s.0 + d.0,
            s.1 + d.1,
        ).solid());
        assert(wall_behind(before, s.0 as int, s.1 as int, s.2));
    }
    assert forall|i: int| 0 <= i < more.len() implies station_site(
        start,
        house,
        (#[trigger] more[i]).0 as int,
        more[i].1 as int,
        more[i].2,
    ) && tile_at(after, more[i].0 as int, more[i].1 as int) == DraftTile::Charger(more[i].2) by {
        if i < sites.len() {
            assert(more[i] == sites[i]);
            assert(site_at(sites, sites[i].0 as int, sites[i].1 as int));
            assert(tile_at(before, sites[i].0 as int, sites[i].1 as int) == DraftTile::Charger(
                sites[i].2,
            ));
        }
    }
    assert forall|i: int, j: int| 0 <= i < j < more.len() implies !((#[trigger] more[i]).0 == (
    #[trigger] more[j]).0 && more[i].1 == more[j].1) by {
        if j == sites.len() {
            assert(site_at(sites, sites[i].0 as int, sites[i].1 as int));
        } else {
            assert(!(sites[i].0 == sites[j].0 && sites[i].1 == sites[j].1));
        }
    }
    assert forall|x: int, z: int| !site_at(more, x, z) implies #[trigger] tile_at(after, x, z)
        == tile_at(start, x, z) by {
        if site_at(sites, x, z) {
            let i = choose|i: int|
                0 <= i < sites.len() && (#[trigger] sites[i]).0 == x && sites[i].1 == z;
            assert(more[i].0 == x && more[i].1 == z);
        }
        if x == s.0 && z == s.1 {
            assert(more[sites.len() as int].0 == x && more[sites.len() as int].1 == z);
        }
        assert(tile_at(before, x, z) == tile_at(start, x, z));
    }
}

/// Whether a house got one to three charging stations, or as many as it has sites for.
pub open spec fn chargers_placed(before: Cells, after: Cells, house: House) -> bool {
    exists|sites: Seq<StationSite>| #[trigger]
        stations_put(before, after, house, sites, false) && sites.len() <= 3 && (sites.len() == 0
            ==> no_site_left(before, house))
}

/// Places up to `target` charging stations in a house.
pub fn place_chargers(cells: &mut Cells, house: &House, target: i32, rng: &mut StdRng)
    requires
        sound(*old(cells), old(cells)@.len() as int),
        house_fits(*house, old(cells)@.len() as int),
        1 <= target <= 3,
    ensures
        final(cells)@.len() == old(cells)@.len(),
        sound(*final(cells), final(cells)@.len() as int),
        exists|sites: Seq<StationSite>| #[trigger]
            stations_put(*old(cells), *final(cells), *house, sites, false) && sites.len() <= target
                && (sites.len() < target ==> no_site_left(*final(cells), *house)),
{
    let ghost mut sites: Seq<StationSite> = seq![];
    let mut placed: i32 = 0;
    while placed < target
        invariant_except_break
            sites.len() == placed,
        invariant
            cells@.len() == old(cells)@.len(),
            sound(*cells, cells@.len() as int),
            house_fits(*house, cells@.len() as int),
            0 <= placed <= target,
            stations_put(*old(cells), *cells, *house, sites, false),
            sites.len() <= target,
        ensures
            sites.len() < target ==> no_site_left(*cells, *house),
        decreases target - placed,
    {
        match pick_station_site(cells, house, rng) {
            Some((x, z, facing)) => {
                let ghost before = *cells;
                set_tile(cells, x, z, DraftTile::Charger(facing));
                proof {
                    lemma_one_more(*old(cells), before, *cells, *house, sites, (x, z, facing));
                    sites = sites.push((x, z, facing));
                }
            },
            None => {
                break;
            },
        }
        placed += 1;
    }
}

/// Whether a house got its parts depot, unless it has no site for one.
pub open spec fn depot_placed(before: Cells, after: Cells, house: House) -> bool {
    exists|sites: Seq<StationSite>| #[trigger]
        stations_put(before, after, house, sites, true) && sites.len() <= 1 && (sites.len() == 0
            ==> no_site_left(before, house))
}

/// Places the parts depot of a house.
pub fn place_depot(cells: &mut Cells, house: &House, rng: &mut StdRng)
    requires
        sound(*old(cells), old(cells)@.len() as int),
        house_fits(*house, old(cells)@.len() as int),
    ensures
        final(cells)@.len() == old(cells)@.len(),
        sound(*final(cells), final(cells)@.len() as int),
        depot_placed(*old(cells), *final(cells), *house),
{
    match pick_station_site(cells, house, rng) {
        Some((x, z, facing)) => {
            set_tile(cells, x, z, DraftTile::PartsDepot(facing));
            proof {
                let sites = seq![(x, z, facing)];
                assert forall|u: int, w: int| !site_at(sites, u, w) implies #[trigger] tile_at(
                    *cells,
                    u,
                    w,
                ) == tile_at(*old(cells), u, w) by {
                    if u == x && w == z {
                        assert(sites[0].0 == u && sites[0].1 == w);
                    }
                }
                assert(stations_put(*old(cells), *cells, *house, sites, true));
            }
        },
        None => {
            proof {
                let sites: Seq<StationSite> = seq![];
                assert(stations_put(*old(cells), *cells, *house, sites, true));
            }
        },
    }
}

/// Whether the stations of the first `n` houses were placed, house by house.
pub open spec fn all_chargers_placed(
    before: Cells,
    after: Cells,
    houses: Seq<House>,
    n: int,
) -> bool {
    exists|states: Seq<Cells>| #[trigger]
        leads(states, before, after, n) && forall|i: int|
            0 <= i < n ==> chargers_placed(states[i], states[i + 1], #[trigger] houses[i])
}

/// Whether the depots of the first `n` houses were placed, house by house.
pub open spec fn all_depots_placed(
    before: Cells,
    after: Cells,
    houses: Seq<House>,
    n: int,
) -> bool {
    exists|states: Seq<Cells>| #[trigger]
        leads(states, before, after, n) && forall|i: int|
            0 <= i < n ==> depot_placed(states[i], states[i + 1], #[trigger] houses[i])
}

/// Whether the houses got their charging stations.
pub open spec fn stations_placed(before: MapDraft, after: MapDraft) -> bool {
    &&& after == (MapDraft {
        cells: after.cells,
        rng: after.rng,
        ..before
    })
    &&& all_chargers_placed(
        before.cells,
        after.cells,
        before.houses@,
        before.houses@.len() as int,
    )
}

/// Whether the houses got their parts depots.
pub open spec fn depots_placed(before: MapDraft, after: MapDraft) -> bool {
    &&& after == (MapDraft {
        cells: after.cells,
        rng: after.rng,
        ..before
    })
    &&& all_depots_placed(
        before.cells,
        after.cells,
        before.houses@,
        before.houses@.len() as int,
    )
}

impl MapDraft {
    /// Up to three charging stations per house.
    pub fn step_place_charging_stations(&mut self)
        requires
            old(self).wf(),
        ensures
            final(self).wf(),
            stations_placed(*old(self), *final(self)),
    {
        let ghost mut states: Seq<Cells> = seq![self.cells];
        let mut idx: usize = 0;
        while idx < self.houses.len()
            invariant
                self.wf(),
                *self == (MapDraft { cells: self.cells, rng: self.rng, ..*old(self) }),
                idx <= self.houses@.len(),
                leads(states, old(self).cells, self.cells, idx as int),
                forall|i: int|
                    0 <= i < idx ==> chargers_placed(
                        states[i],
                        states[i + 1],
                        #[trigger] self.houses@[i],
                    ),
            decreases self.houses@.len() - idx,
        {
            let ghost before = self.cells;
            assert(house_fits(self.houses@[idx as int], self.size as int));
            let target: i32 = rng::range(&mut self.rng, 1, MAX_CHARGERS_PER_HOUSE);
            place_chargers(&mut self.cells, &self.houses[idx], target, &mut self.rng);
            proof {
                let house = self.houses@[idx as int];
                let sites = choose|sites: Seq<StationSite>| #[trigger]
                    stations_put(before, self.cells, house, sites, false) && sites.len() <= target
                        && (sites.len() < target ==> no_site_left(self.cells, house));
                if sites.len() == 0 {
                    assert forall|x: int, z: int, f: ChargerFacing| !#[trigger]
                        station_site(before, house, x, z, f) by {
                        assert(!station_site(self.cells, house, x, z, f));
                        assert(tile_at(self.cells, x, z) == tile_at(before, x, z));
                        lemma_same_walls(before, self.cells, x, z);
                    }
                }
                assert(chargers_placed(before, self.cells, house));
                states = states.push(self.cells);
            }
            idx += 1;
        }
    }

    /// One parts depot per house.
    pub fn step_place_parts_depots(&mut self)
        requires
            old(self).wf(),
        ensures
            final(self).wf(),
            depots_placed(*old(self), *final(self)),
    {
        let ghost mut states: Seq<Cells> = seq![self.cells];
        let mut idx: usize = 0;
        while idx < self.houses.len()
            invariant
                self.wf(),
                *self == (MapDraft { cells: self.cells, rng: self.rng, ..*old(self) }),
                idx <= self.houses@.len(),
                leads(states, old(self).cells, self.cells, idx as int),
                forall|i: int|
                    0 <= i < idx ==> depot_placed(
                        states[i],
                        states[i + 1],
                        #[trigger] self.houses@[i],
                    ),
            decreases self.houses@.len() - idx,
        {
            assert(house_fits(self.houses@[idx as int], self.size as int));
            place_depot(&mut self.cells, &self.houses[idx], &mut self.rng);
            proof {
                states = states.push(self.cells);
            }
            idx += 1;
        }
    }
}

proof fn lemma_same_walls(a: Cells, b: Cells, x: int, z: int)
    requires
        forall|u: int, w: int| #[trigger] tile_at(b, u, w) == tile_at(a, u, w),
    ensures
        forall|f: ChargerFacing| #[trigger] lone_wall(a, x, z, f) == lone_wall(b, x, z, f),
{
    assert forall|f: ChargerFacing| #[trigger] wall_behind(a, x, z, f) == wall_behind(b, x, z, f) by {
        assert(tile_at(b, x + f.delta().0, z + f.delta().1) == tile_at(
            a,
            x + f.delta().0,
            z + f.delta().1,
        ));
    }
    assert forall|f: ChargerFacing| #[trigger] lone_wall(a, x, z, f) == lone_wall(b, x, z, f) by {
        assert forall|g: ChargerFacing| g != f && lone_wall(a, x, z, f) implies !#[trigger] wall_behind(
            b,
            x,
            z,
            g,
        ) by {
            assert(wall_behind(a, x, z, g) == wall_behind(b, x, z, g));
        }
        assert forall|g: ChargerFacing| g != f && lone_wall(b, x, z, f) implies !#[trigger] wall_behind(
            a,
            x,
            z,
            g,
        ) by {
            assert(wall_behind(a, x, z, g) == wall_behind(b, x, z, g));
        }
        assert(wall_behind(a, x, z, f) == wall_behind(b, x, z, f));
    }
}

} // verus!
