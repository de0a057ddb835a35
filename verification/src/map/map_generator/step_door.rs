//! Step 9: functional doorways per house onto exterior road (not another building).
use rand::rngs::StdRng;
use vstd::prelude::*;

use crate::map::map_generator::draft::{
    get_tile, set_tile, sound, tile_at, Cells, DraftTile, MapDraft,
};
use crate::map::map_generator::grid::in_grid;
use crate::map::map_generator::house::{
    house_contains, house_fits, house_on_perimeter, on_perimeter, House,
};
use crate::map::map_generator::types::HouseEntrypoint;
use crate::map::world_map::{valid_mask, MASK_EAST, MASK_NORTH, MASK_SOUTH, MASK_WEST};
use crate::rng;

verus! {

/// Whether the bits name one edge.
pub open spec fn is_edge(edge: u8) -> bool {
    edge == 1 || edge == 2 || edge == 4 || edge == 8
}

/// Offset to the neighbour across an edge.
pub open spec fn edge_delta(edge: u8) -> (int, int) {
    if edge == 1 {
        (0, -1)
    } else if edge == 2 {
        (0, 1)
    } else if edge == 4 {
        (1, 0)
    } else if edge == 8 {
        (-1, 0)
    } else {
        (0, 0)
    }
}

pub fn outward_delta(outward_edge: u8) -> (delta: (i32, i32))
    ensures
        delta.0 == edge_delta(outward_edge).0,
        delta.1 == edge_delta(outward_edge).1,
        -1 <= delta.0 <= 1,
        -1 <= delta.1 <= 1,
{
    if outward_edge == MASK_NORTH {
        (0, -1)
    } else if outward_edge == MASK_SOUTH {
        (0, 1)
    } else if outward_edge == MASK_EAST {
        (1, 0)
    } else if outward_edge == MASK_WEST {
        (-1, 0)
    } else {
        (0, 0)
    }
}

/// Coordinates that leave room for two steps in any direction.
pub open spec fn near_grid(x: int, z: int) -> bool {
    i32::MIN + 2 <= x <= i32::MAX - 2 && i32::MIN + 2 <= z <= i32::MAX - 2
}

/// Road tile outside the wall cell along the opened edge (chunk-local).
pub fn entrypoint_walk_tile(wall_x: i32, wall_z: i32, outward_edge: u8) -> (tile: (i32, i32))
    requires
        i32::MIN < wall_x < i32::MAX,
        i32::MIN < wall_z < i32::MAX,
    ensures
        tile.0 == wall_x + edge_delta(outward_edge).0,
        tile.1 == wall_z + edge_delta(outward_edge).1,
{
    let (dx, dz) = outward_delta(outward_edge);
    (wall_x + dx, wall_z + dz)
}

/// Floor tile just inside the doorway (opposite the outward road step).
pub fn entrypoint_inward_tile(wall_x: i32, wall_z: i32, outward_edge: u8) -> (tile: (i32, i32))
    requires
        i32::MIN < wall_x < i32::MAX,
        i32::MIN < wall_z < i32::MAX,
    ensures
        tile.0 == wall_x - edge_delta(outward_edge).0,
        tile.1 == wall_z - edge_delta(outward_edge).1,
{
    let (dx, dz) = outward_delta(outward_edge);
    (wall_x - dx, wall_z - dz)
}

/// Whether one of the houses holds the cell.
pub open spec fn in_a_house(houses: Seq<House>, x: int, z: int) -> bool {
    exists|i: int| 0 <= i < houses.len() && (#[trigger] houses[i]).has(x, z)
}

/// Whether a house other than `h` holds the cell.
pub open spec fn in_other_house(houses: Seq<House>, h: int, x: int, z: int) -> bool {
    exists|i: int| 0 <= i < houses.len() && i != h && (#[trigger] houses[i]).has(x, z)
}

/// Whether one can walk through the door cell across the edge without meeting a slab.
pub open spec fn lets_through(tile: DraftTile, edge: u8) -> bool {
    match tile {
        DraftTile::Wall(bits) => bits & edge != 0 && bits & !edge == 0,
        DraftTile::Void => false,
        _ => true,
    }
}

/// Whether a doorway at (x, z) opens onto exterior road with a clear interior floor.
pub open spec fn valid_site(
    cells: Cells,
    houses: Seq<House>,
    h: int,
    x: int,
    z: int,
    edge: u8,
) -> bool {
    let (dx, dz) = edge_delta(edge);
    &&& houses[h].has(x - dx, z - dz)
    &&& tile_at(cells, x - dx, z - dz) == DraftTile::Open
    &&& tile_at(cells, x + dx, z + dz) == DraftTile::Open
    &&& !in_a_house(houses, x + dx, z + dz)
    &&& !(tile_at(cells, x + 2 * dx, z + 2 * dz).solid() && in_other_house(
        houses,
        h,
        x + 2 * dx,
        z + 2 * dz,
    ))
    &&& lets_through(tile_at(cells, x, z), edge)
}

fn any_house_holds(houses: &Vec<House>, x: i32, z: i32) -> (yes: bool)
    ensures
        yes == in_a_house(houses@, x as int, z as int),
{
    let mut i: usize = 0;
    while i < houses.len()
        invariant
            i <= houses@.len(),
            forall|j: int| 0 <= j < i ==> !(#[trigger] houses@[j]).has(x as int, z as int),
        decreases houses@.len() - i,
    {
        if houses[i].contains(x, z) {
            return true;
        }
        i += 1;
    }
    false
}

fn other_house_holds(houses: &Vec<House>, h: usize, x: i32, z: i32) -> (yes: bool)
    ensures
        yes == in_other_house(houses@, h as int, x as int, z as int),
{
    let mut i: usize = 0;
    while i < houses.len()
        invariant
            i <= houses@.len(),
            forall|j: int|
                0 <= j < i && j != h ==> !(#[trigger] houses@[j]).has(x as int, z as int),
        decreases houses@.len() - i,
    {
        if i != h && houses[i].contains(x, z) {
            return true;
        }
        i += 1;
    }
    false
}

fn walk_is_exterior_road(cells: &Cells, houses: &Vec<House>, x: i32, z: i32) -> (yes: bool)
    requires
        sound(*cells, cells@.len() as int),
    ensures
        yes == (tile_at(*cells, x as int, z as int) == DraftTile::Open && !in_a_house(
            houses@,
            x as int,
            z as int,
        )),
{
    get_tile(cells, x, z) == DraftTile::Open && !any_house_holds(houses, x, z)
}

fn outward_faces_other_house_wall(
    cells: &Cells,
    houses: &Vec<House>,
    h: usize,
    x: i32,
    z: i32,
    edge: u8,
) -> (yes: bool)
    requires
        sound(*cells, cells@.len() as int),
        near_grid(x as int, z as int),
    ensures
        yes == ({
            let (dx, dz) = edge_delta(edge);
            tile_at(*cells, x + 2 * dx, z + 2 * dz).solid() && in_other_house(
                houses@,
                h as int,
                x + 2 * dx,
                z + 2 * dz,
            )
        }),
{
    let (dx, dz) = outward_delta(edge);
    let bx: i32 = x + dx + dx;
    let bz: i32 = z + dz + dz;
    matches!(get_tile(cells, bx, bz), DraftTile::Wall(_) | DraftTile::Corner(_))
        && other_house_holds(houses, h, bx, bz)
}

fn door_cell_allows_passage(cells: &Cells, x: i32, z: i32, edge: u8) -> (yes: bool)
    requires
        sound(*cells, cells@.len() as int),
    ensures
        yes == lets_through(tile_at(*cells, x as int, z as int), edge),
{
    match get_tile(cells, x, z) {
        DraftTile::Wall(bits) => bits & edge != 0 && bits & !edge == 0,
        DraftTile::Void => false,
        _ => true,
    }
}

/// True when this doorway opens onto exterior road with a clear interior floor (no L-wall
/// traps).
pub fn is_valid_door(
    cells: &Cells,
    houses: &Vec<House>,
    h: usize,
    x: i32,
    z: i32,
    edge: u8,
) -> (ok: bool)
    requires
        sound(*cells, cells@.len() as int),
        h < houses@.len(),
        near_grid(x as int, z as int),
    ensures
        ok == valid_site(*cells, houses@, h as int, x as int, z as int, edge),
{
    let (walk_x, walk_z) = entrypoint_walk_tile(x, z, edge);
    let (in_x, in_z) = entrypoint_inward_tile(x, z, edge);
    if !houses[h].contains(in_x, in_z) || get_tile(cells, in_x, in_z) != DraftTile::Open {
        return false;
    }
    if !walk_is_exterior_road(cells, houses, walk_x, walk_z) {
        return false;
    }
    if outward_faces_other_house_wall(cells, houses, h, x, z, edge) {
        return false;
    }
    door_cell_allows_passage(cells, x, z, edge)
}

/// True when this doorway opens onto exterior road with a clear interior floor (no L-wall
/// traps).
pub fn is_valid_door_site(
    draft: &MapDraft,
    house_index: usize,
    wall_x: i32,
    wall_z: i32,
    outward_edge: u8,
) -> (ok: bool)
    requires
        draft.wf(),
        house_index < draft.houses@.len(),
        near_grid(wall_x as int, wall_z as int),
    ensures
        ok == valid_site(
            draft.cells,
            draft.houses@,
            house_index as int,
            wall_x as int,
            wall_z as int,
            outward_edge,
        ),
{
    is_valid_door(&draft.cells, &draft.houses, house_index, wall_x, wall_z, outward_edge)
}

/// Whether a door of house `h` can be cut through its shell at (x, z) across the edge.
pub open spec fn door_site(
    cells: Cells,
    houses: Seq<House>,
    h: int,
    x: int,
    z: int,
    edge: u8,
) -> bool {
    let (dx, dz) = edge_delta(edge);
    &&& is_edge(edge)
    &&& on_perimeter(houses[h], x, z)
    &&& !houses[h].has(x + dx, z + dz)
    &&& match tile_at(cells, x, z) {
        DraftTile::Wall(bits) => bits & edge != 0,
        DraftTile::Corner(_) => true,
        _ => false,
    }
    &&& valid_site(cells, houses, h, x, z, edge)
}

fn is_door_site(
    cells: &Cells,
    houses: &Vec<House>,
    h: usize,
    x: i32,
    z: i32,
    edge: u8,
) -> (ok: bool)
    requires
        sound(*cells, cells@.len() as int),
        h < houses@.len(),
        near_grid(x as int, z as int),
        is_edge(edge),
        on_perimeter(houses@[h as int], x as int, z as int),
    ensures
        ok == door_site(*cells, houses@, h as int, x as int, z as int, edge),
{
    let (dx, dz) = outward_delta(edge);
    if house_contains(&houses[h], x + dx, z + dz) {
        return false;
    }
    let opens: bool = match get_tile(cells, x, z) {
        DraftTile::Wall(bits) => bits & edge != 0,
        DraftTile::Corner(_) => true,
        _ => false,
    };
    opens && is_valid_door(cells, houses, h, x, z, edge)
}

/// A place for a door: cell and outward edge.
pub type DoorSite = (i32, i32, u8);

/// Whether the list holds just the door sites of house `h`.
pub open spec fn lists_sites(cells: Cells, houses: Seq<House>, h: int, sites: Seq<DoorSite>) -> bool {
    &&& forall|i: int|
        0 <= i < sites.len() ==> door_site(
            cells,
            houses,
            h,
            (#[trigger] sites[i]).0 as int,
            sites[i].1 as int,
            sites[i].2,
        )
    &&& forall|x: int, z: int, edge: u8| #[trigger]
        door_site(cells, houses, h, x, z, edge) ==> sites.contains((x as i32, z as i32, edge))
}

spec fn sites_before(
    cells: Cells,
    houses: Seq<House>,
    h: int,
    sites: Seq<DoorSite>,
    x: int,
    z: int,
) -> bool {
    &&& forall|i: int|
        0 <= i < sites.len() ==> door_site(
            cells,
            houses,
            h,
            (#[trigger] sites[i]).0 as int,
            sites[i].1 as int,
            sites[i].2,
        )
    &&& forall|u: int, w: int, edge: u8| #[trigger]
        door_site(cells, houses, h, u, w, edge) && (w < z || w == z && u < x) ==> sites.contains(
            (u as i32, w as i32, edge),
        )
}

fn try_site(
    cells: &Cells,
    houses: &Vec<House>,
    h: usize,
    x: i32,
    z: i32,
    edge: u8,
    sites: &mut Vec<DoorSite>,
)
    requires
        sound(*cells, cells@.len() as int),
        h < houses@.len(),
        near_grid(x as int, z as int),
        is_edge(edge),
        on_perimeter(houses@[h as int], x as int, z as int),
    ensures
        final(sites)@ == if door_site(*cells, houses@, h as int, x as int, z as int, edge) {
            old(sites)@.push((x, z, edge))
        } else {
            old(sites)@
        },
{
    if is_door_site(cells, houses, h, x, z, edge) {
        sites.push((x, z, edge));
    }
}

proof fn lemma_kept(a: Seq<DoorSite>, b: Seq<DoorSite>, s: DoorSite, pushed: bool)
    requires
        b == (if pushed {
            a.push(s)
        } else {
            a
        }),
    ensures
        forall|t: DoorSite| #[trigger] a.contains(t) ==> b.contains(t),
        pushed ==> b.contains(s),
{
    assert forall|t: DoorSite| #[trigger] a.contains(t) implies b.contains(t) by {
        let i = choose|i: int| 0 <= i < a.len() && a[i] == t;
        assert(b[i] == t);
    }
    if pushed {
        assert(b[a.len() as int] == s);
    }
}

fn collect_valid_door_sites(cells: &Cells, houses: &Vec<House>, h: usize) -> (sites: Vec<DoorSite>)
    requires
        sound(*cells, cells@.len() as int),
        h < houses@.len(),
        house_fits(houses@[h as int], cells@.len() as int),
    ensures
        lists_sites(*cells, houses@, h as int, sites@),
{
    let house: &House = &houses[h];
    let ghost hs = houses@;
    let mut sites: Vec<DoorSite> = Vec::new();
    let mut z: i32 = house.z0;
    while z <= house.z1
        invariant
            sound(*cells, cells@.len() as int),
            hs == houses@,
            h < houses@.len(),
            *house == houses@[h as int],
            house_fits(*house, cells@.len() as int),
            house.z0 <= z <= house.z1 + 1,
            sites_before(*cells, hs, h as int, sites@, house.x0 as int, z as int),
        decreases house.z1 + 1 - z,
    {
        let mut x: i32 = house.x0;
        while x <= house.x1
            invariant
                sound(*cells, cells@.len() as int),
                hs == houses@,
                h < houses@.len(),
                *house == houses@[h as int],
                house_fits(*house, cells@.len() as int),
                house.z0 <= z <= house.z1,
                house.x0 <= x <= house.x1 + 1,
                sites_before(*cells, hs, h as int, sites@, x as int, z as int),
            decreases house.x1 + 1 - x,
        {
            if house_on_perimeter(house, x, z) {
                let ghost s0 = sites@;
                try_site(cells, houses, h, x, z, MASK_NORTH, &mut sites);
                let ghost s1 = sites@;
                try_site(cells, houses, h, x, z, MASK_SOUTH, &mut sites);
                let ghost s2 = sites@;
                try_site(cells, houses, h, x, z, MASK_EAST, &mut sites);
                let ghost s3 = sites@;
                try_site(cells, houses, h, x, z, MASK_WEST, &mut sites);
                proof {
                    let c = *cells;
                    let hi = h as int;
                    lemma_kept(s0, s1, (x, z, 1), door_site(c, hs, hi, x as int, z as int, 1));
                    lemma_kept(s1, s2, (x, z, 2), door_site(c, hs, hi, x as int, z as int, 2));
                    lemma_kept(s2, s3, (x, z, 4), door_site(c, hs, hi, x as int, z as int, 4));
                    lemma_kept(s3, sites@, (x, z, 8), door_site(c, hs, hi, x as int, z as int, 8));
                }
            }
            assert(sites_before(*cells, hs, h as int, sites@, x + 1, z as int));
            x += 1;
        }
        proof {
            assert forall|u: int, w: int, edge: u8| #[trigger]
                door_site(*cells, hs, h as int, u, w, edge) && (w < z + 1 || w == z + 1 && u
                    < house.x0) implies sites@.contains((u as i32, w as i32, edge)) by {
                lemma_in_box(*house, cells@.len() as int, u, w);
            }
        }
        z += 1;
    }
    proof {
        assert forall|u: int, w: int, edge: u8| #[trigger]
            door_site(*cells, hs, h as int, u, w, edge) implies sites@.contains(
            (u as i32, w as i32, edge),
        ) by {
            lemma_in_box(*house, cells@.len() as int, u, w);
        }
    }
    sites
}

/// The bounding box holds the house.
pub proof fn lemma_in_box(house: House, n: int, x: int, z: int)
    requires
        house_fits(house, n),
        house.has(x, z),
    ensures
        house.x0 <= x <= house.x1,
        house.z0 <= z <= house.z1,
        in_grid(n, x, z),
{
    let i = choose|i: int| 0 <= i < house.rects@.len() && (#[trigger] house.rects@[i]).has(x, z);
    assert(house.rects@[i].has(x, z));
}

/// A door cell after its slab across the edge was taken out.
pub open spec fn opened(tile: DraftTile, edge: u8) -> DraftTile {
    match tile {
        DraftTile::Wall(bits) => if bits & !edge == 0 {
            DraftTile::Open
        } else {
            DraftTile::Wall(bits & !edge)
        },
        DraftTile::Corner(_) => DraftTile::Open,
        _ => tile,
    }
}

/// Whether the grids differ only at (x, z), where a door was opened.
pub open spec fn opened_at(before: Cells, after: Cells, x: int, z: int, edge: u8) -> bool {
    forall|u: int, w: int| #[trigger]
        tile_at(after, u, w) == if u == x && w == z {
            opened(tile_at(before, u, w), edge)
        } else {
            tile_at(before, u, w)
        }
}

fn open_doorway(cells: &mut Cells, x: i32, z: i32, bit: u8)
    requires
        sound(*old(cells), old(cells)@.len() as int),
    ensures
        final(cells)@.len() == old(cells)@.len(),
        sound(*final(cells), final(cells)@.len() as int),
        opened_at(*old(cells), *final(cells), x as int, z as int, bit),
{
    match get_tile(cells, x, z) {
        DraftTile::Wall(mask) => {
            let rest: u8 = mask & !bit;
            assert(valid_mask(mask) && rest == mask & !bit && rest != 0 ==> valid_mask(rest)) by {
                assert(mask <= 15 ==> mask & !bit <= 15) by (bit_vector);
            }
            if rest == 0 {
                set_tile(cells, x, z, DraftTile::Open);
            } else {
                set_tile(cells, x, z, DraftTile::Wall(rest));
            }
        },
        DraftTile::Corner(_) => set_tile(cells, x, z, DraftTile::Open),
        _ => {},
    }
}

/// The cells beside (x, z) along the wall run, in the order in which they are tried.
pub open spec fn beside(x: int, z: int, edge: u8, first: bool) -> (int, int) {
    let step = if first {
        1int
    } else {
        -1
    };
    if edge == 1 || edge == 2 {
        (x + step, z)
    } else {
        (x, z + step)
    }
}

/// The second cell of a 2-wide doorway at (x, z), if there is one.
pub open spec fn companion(
    cells: Cells,
    houses: Seq<House>,
    h: int,
    x: int,
    z: int,
    edge: u8,
) -> Option<(int, int)> {
    let a = beside(x, z, edge, true);
    let b = beside(x, z, edge, false);
    if !is_edge(edge) {
        None
    } else if valid_site(cells, houses, h, a.0, a.1, edge) {
        Some(a)
    } else if valid_site(cells, houses, h, b.0, b.1, edge) {
        Some(b)
    } else {
        None
    }
}

/// Returns the adjacent cell along the wall run (perpendicular to `outward_edge`) that
/// can serve as a second valid door site, making the opening 2 tiles wide.  Returns
/// `None` when no such neighbor exists (degenerate geometry → 1-wide fallback).
fn find_wide_companion(
    cells: &Cells,
    houses: &Vec<House>,
    h: usize,
    x: i32,
    z: i32,
    edge: u8,
) -> (found: Option<(i32, i32)>)
    requires
        sound(*cells, cells@.len() as int),
        h < houses@.len(),
        i32::MIN + 3 <= x <= i32::MAX - 3,
        i32::MIN + 3 <= z <= i32::MAX - 3,
    ensures
        match found {
            Some(c) => companion(*cells, houses@, h as int, x as int, z as int, edge) == Some(
                (c.0 as int, c.1 as int),
            ),
            None => companion(*cells, houses@, h as int, x as int, z as int, edge) is None,
        },
{
    let along_x: bool = edge == MASK_NORTH || edge == MASK_SOUTH;
    if !along_x && edge != MASK_EAST && edge != MASK_WEST {
        return None;
    }
    let (ax, az): (i32, i32) = if along_x { (x + 1, z) } else { (x, z + 1) };
    if is_valid_door(cells, houses, h, ax, az, edge) {
        return Some((ax, az));
    }
    let (bx, bz): (i32, i32) = if along_x { (x - 1, z) } else { (x, z - 1) };
    if is_valid_door(cells, houses, h, bx, bz, edge) {
        return Some((bx, bz));
    }
    None
}

/// Whether the site can be widened to two tiles.
pub open spec fn widens(cells: Cells, houses: Seq<House>, h: int, s: DoorSite) -> bool {
    companion(cells, houses, h, s.0 as int, s.1 as int, s.2) is Some
}

fn pick_site(
    cells: &Cells,
    houses: &Vec<House>,
    h: usize,
    sites: &Vec<DoorSite>,
    rng: &mut StdRng,
) -> (pick: DoorSite)
    requires
        sound(*cells, cells@.len() as int),
        h < houses@.len(),
        sites@.len() > 0,
        forall|i: int|
            0 <= i < sites@.len() ==> 0 <= (#[trigger] sites@[i]).0 <= 46340 && 0 <= sites@[i].1
                <= 46340,
    ensures
        sites@.contains(pick),
        widens(*cells, houses@, h as int, pick) || forall|i: int|
            0 <= i < sites@.len() ==> !widens(*cells, houses@, h as int, #[trigger] sites@[i]),
{
    let mut wide: Vec<DoorSite> = Vec::new();
    let mut i: usize = 0;
    while i < sites.len()
        invariant
            sound(*cells, cells@.len() as int),
            h < houses@.len(),
            i <= sites@.len(),
            forall|i: int|
                0 <= i < sites@.len() ==> 0 <= (#[trigger] sites@[i]).0 <= 46340 && 0 <= sites@[i].1
                    <= 46340,
            forall|j: int|
                0 <= j < wide@.len() ==> sites@.contains(#[trigger] wide@[j]) && widens(
                    *cells,
                    houses@,
                    h as int,
                    wide@[j],
                ),
            wide@.len() == 0 ==> forall|j: int|
                0 <= j < i ==> !widens(*cells, houses@, h as int, #[trigger] sites@[j]),
        decreases sites@.len() - i,
    {
        let s: DoorSite = sites[i];
        assert(sites@.contains(s));
        if find_wide_companion(cells, houses, h, s.0, s.1, s.2).is_some() {
            wide.push(s);
        }
        i += 1;
    }
    if wide.len() > 0 {
        let k: usize = rng::index_below(rng, wide.len());
        wide[k]
    } else {
        let k: usize = rng::index_below(rng, sites.len());
        assert(sites@.contains(sites@[k as int]));
        sites[k]
    }
}

/// Whether `after` is `before` with the doorway of `ep` cut into it: at a site of house `h`,
/// two tiles wide where a second valid cell lies beside it.
pub open spec fn cut(
    before: Cells,
    after: Cells,
    houses: Seq<House>,
    h: int,
    ep: HouseEntrypoint,
) -> bool {
    let (dx, dz) = edge_delta(ep.outward_edge);
    &&& ep.walk_x == ep.wall_x + dx
    &&& ep.walk_z == ep.wall_z + dz
    &&& exists|mid: Cells|
        {
            &&& #[trigger] opened_at(
                before,
                mid,
                ep.wall_x as int,
                ep.wall_z as int,
                ep.outward_edge,
            )
            &&& match companion(
                mid,
                houses,
                h,
                ep.wall_x as int,
                ep.wall_z as int,
                ep.outward_edge,
            ) {
                Some(c) => {
                    &&& ep.wall2 matches Some(w) && w.0 == c.0 && w.1 == c.1
                    &&& opened_at(mid, after, c.0, c.1, ep.outward_edge)
                },
                None => ep.wall2 is None && same_tiles(mid, after),
            }
        }
}

/// Whether the grids hold the same tiles.
pub open spec fn same_tiles(a: Cells, b: Cells) -> bool {
    forall|x: int, z: int| #[trigger] tile_at(a, x, z) == tile_at(b, x, z)
}

/// Cuts the doorway at a site.
pub fn cut_door(cells: &mut Cells, houses: &Vec<House>, h: usize, site: DoorSite) -> (ep:
    HouseEntrypoint)
    requires
        sound(*old(cells), old(cells)@.len() as int),
        h < houses@.len(),
        0 <= site.0 <= 46340,
        0 <= site.1 <= 46340,
    ensures
        final(cells)@.len() == old(cells)@.len(),
        sound(*final(cells), final(cells)@.len() as int),
        ep.wall_x == site.0,
        ep.wall_z == site.1,
        ep.outward_edge == site.2,
        cut(*old(cells), *final(cells), houses@, h as int, ep),
{
    let (x, z, edge) = site;
    open_doorway(cells, x, z, edge);
    let ghost mid = *cells;
    let second: Option<(i32, i32)> = find_wide_companion(cells, houses, h, x, z, edge);
    if let Some((cx, cz)) = second {
        open_doorway(cells, cx, cz, edge);
    }
    let (walk_x, walk_z) = entrypoint_walk_tile(x, z, edge);
    let ep = HouseEntrypoint {
        walk_x,
        walk_z,
        wall_x: x,
        wall_z: z,
        outward_edge: edge,
        wall2: second,
    };
    assert(opened_at(*old(cells), mid, x as int, z as int, edge));
    ep
}

/// What placing a door of house `h` comes to, whatever was rolled: nothing where there is no
/// site, else a doorway at a site, one that can be widened if there is any.
pub open spec fn door_placed(
    before: Cells,
    after: Cells,
    houses: Seq<House>,
    h: int,
    ep: Option<HouseEntrypoint>,
) -> bool {
    match ep {
        None => {
            &&& same_tiles(before, after)
            &&& forall|x: int, z: int, edge: u8| !#[trigger]
                door_site(before, houses, h, x, z, edge)
        },
        Some(ep) => {
            let site = (ep.wall_x, ep.wall_z, ep.outward_edge);
            &&& door_site(
                before,
                houses,
                h,
                ep.wall_x as int,
                ep.wall_z as int,
                ep.outward_edge,
            )
            &&& cut(before, after, houses, h, ep)
            &&& widens(before, houses, h, site) || forall|x: int, z: int, edge: u8| #[trigger]
                door_site(before, houses, h, x, z, edge) ==> !widens(
                    before,
                    houses,
                    h,
                    (x as i32, z as i32, edge),
                )
        },
    }
}

/// Places one door of house `h`.
pub fn place_door(cells: &mut Cells, houses: &Vec<House>, h: usize, rng: &mut StdRng) -> (ep:
    Option<HouseEntrypoint>)
    requires
        sound(*old(cells), old(cells)@.len() as int),
        h < houses@.len(),
        house_fits(houses@[h as int], old(cells)@.len() as int),
    ensures
        final(cells)@.len() == old(cells)@.len(),
        sound(*final(cells), final(cells)@.len() as int),
        door_placed(*old(cells), *final(cells), houses@, h as int, ep),
{
    let sites = collect_valid_door_sites(cells, houses, h);
    let ghost n = cells@.len() as int;
    if sites.len() == 0 {
        proof {
            assert forall|x: int, z: int, edge: u8| !#[trigger]
                door_site(*cells, houses@, h as int, x, z, edge) by {
                if door_site(*cells, houses@, h as int, x, z, edge) {
                    assert(sites@.contains((x as i32, z as i32, edge)));
                }
            }
        }
        return None;
    }
    proof {
        assert forall|i: int| 0 <= i < sites@.len() implies 0 <= (#[trigger] sites@[i]).0 <= 46340
            && 0 <= sites@[i].1 <= 46340 by {
            lemma_in_box(houses@[h as int], n, sites@[i].0 as int, sites@[i].1 as int);
        }
    }
    let pick: DoorSite = pick_site(cells, houses, h, &sites, rng);
    proof {
        let k = choose|k: int| 0 <= k < sites@.len() && sites@[k] == pick;
        assert(sites@[k] == pick);
        if !widens(*cells, houses@, h as int, pick) {
            assert forall|x: int, z: int, edge: u8| #[trigger]
                door_site(*cells, houses@, h as int, x, z, edge) implies !widens(
                *cells,
                houses@,
                h as int,
                (x as i32, z as i32, edge),
            ) by {
                assert(sites@.contains((x as i32, z as i32, edge)));
            }
        }
    }
    Some(cut_door(cells, houses, h, pick))
}

} // verus!
