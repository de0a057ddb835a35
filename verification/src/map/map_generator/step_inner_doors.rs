//! Step 9c: open doors in inner walls so every room is reachable from the house entry.
//!
//! Connectivity here is **edge-based**, matching the runtime geometry: a `Wall(bits)`
//! cell is walkable floor carrying slabs on the named edges, not a solid blocker. Two
//! adjacent in-house cells are connected unless a slab sits on their shared edge (from
//! either side). Inner walls lay full rows of north slabs / columns of west slabs, sealing
//! rooms off; a door is one edge with its slab bits cleared.
//!
//! The loop floods the accessible region from the entry, finds any blocked edge between
//! an accessible cell and an in-house cell that is not yet accessible, clears that edge,
//! and repeats until the whole house is one connected region.
use rand::rngs::StdRng;
use vstd::prelude::*;

use crate::flood::{
    flood, flood_step, flooded, lemma_push_new, lemma_tile_count, TileField, TileSet,
};
use crate::map::map_generator::draft::{get_tile, set_tile, sound, tile_at, Cells, DraftTile};
use crate::map::map_generator::entry_tile::{entry_floor, entry_interior_tile};
use crate::map::map_generator::house::{house_fits, House};
use crate::map::map_generator::step_door::{lemma_in_box, near_grid, same_tiles};
use crate::map::map_generator::step_house_doors::{
    lemma_opens_only_steps, lemma_same_opens_only, looser, opens_only,
};
use crate::map::map_generator::types::HouseEntrypoint;
use crate::map::search::{abs_int, adjacent, Tile};
use crate::map::world_map::valid_mask;
use crate::reach::{
    lemma_closed_set_holds_reachable, lemma_reaches_self, lemma_reaches_step, lemma_reaches_wider,
    reaches,
};
use crate::rng;

verus! {

/// Slab bits on a walkable cell, or `None` when the cell cannot be walked at all.
///
/// Only `Wall(bits)` floor carries slabs.
pub open spec fn slabs_on(tile: DraftTile) -> Option<u8> {
    match tile {
        DraftTile::Wall(bits) => Some(bits),
        DraftTile::Void => None,
        _ => Some(0),
    }
}

/// The edge of `a` that it shares with its neighbour `b`.
pub open spec fn edge_towards(a: Tile, b: Tile) -> u8 {
    if b.1 < a.1 {
        1
    } else if b.1 > a.1 {
        2
    } else if b.0 > a.0 {
        4
    } else {
        8
    }
}

/// Whether one can step from `a` to `b` inside the house: no slab on the shared edge.
pub open spec fn passable_edge(cells: Cells, house: House, a: Tile, b: Tile) -> bool {
    let here = slabs_on(tile_at(cells, a.0 as int, a.1 as int));
    let there = slabs_on(tile_at(cells, b.0 as int, b.1 as int));
    &&& adjacent(a, b)
    &&& house.has(b.0 as int, b.1 as int)
    &&& here is Some
    &&& there is Some
    &&& here->0 & edge_towards(a, b) == 0
    &&& there->0 & edge_towards(b, a) == 0
}

/// The steps inside a house.
pub open spec fn indoor_step(cells: Cells, house: House) -> spec_fn(Tile, Tile) -> bool {
    |a: Tile, b: Tile| passable_edge(cells, house, a, b)
}

/// Whether the cell belongs to the house and can be walked.
pub open spec fn room_cell(cells: Cells, house: House, t: Tile) -> bool {
    house.has(t.0 as int, t.1 as int) && slabs_on(tile_at(cells, t.0 as int, t.1 as int)) is Some
}

/// Whether what is reachable from `s` is cut off from no neighbouring cell of the house.
pub open spec fn all_joined(cells: Cells, house: House, s: Tile) -> bool {
    forall|a: Tile, b: Tile|
        #![trigger adjacent(a, b)]
        reaches(indoor_step(cells, house), s, a) && adjacent(a, b) && room_cell(cells, house, b)
            ==> reaches(indoor_step(cells, house), s, b)
}

/// The first walkable cell of the house, row by row.
pub open spec fn is_first_walkable(cells: Cells, house: House, t: Tile) -> bool {
    &&& room_cell(cells, house, t)
    &&& forall|u: Tile| #[trigger]
        room_cell(cells, house, u) ==> !(u.1 < t.1 || u.1 == t.1 && u.0 < t.0)
}

/// Where the flood of a house with a doorway starts: at the floor of the doorway, or else at
/// the first walkable cell.
pub open spec fn starts_at(cells: Cells, house: House, s: Option<Tile>) -> bool {
    match entry_floor(cells, house.entry->0, 0) {
        Some(p) => s matches Some(t) && t.0 == p.0 && t.1 == p.1,
        None => match s {
            Some(t) => is_first_walkable(cells, house, t),
            None => forall|u: Tile| !#[trigger] room_cell(cells, house, u),
        },
    }
}

fn cell_bits(cells: &Cells, x: i32, z: i32) -> (bits: Option<u8>)
    requires
        sound(*cells, cells@.len() as int),
    ensures
        bits == slabs_on(tile_at(*cells, x as int, z as int)),
{
    match get_tile(cells, x, z) {
        DraftTile::Wall(bits) => Some(bits),
        DraftTile::Void => None,
        _ => Some(0),
    }
}

fn edge_of(a: (i32, i32), b: (i32, i32)) -> (edge: u8)
    ensures
        edge == edge_towards(a, b),
{
    if b.1 < a.1 {
        1
    } else if b.1 > a.1 {
        2
    } else if b.0 > a.0 {
        4
    } else {
        8
    }
}

struct RoomsField<'a> {
    cells: &'a Cells,
    house: &'a House,
}

impl<'a> TileField for RoomsField<'a> {
    closed spec fn valid(&self) -> bool {
        sound(*self.cells, self.cells@.len() as int)
    }

    closed spec fn spreads(&self, a: Tile, b: Tile) -> bool {
        passable_edge(*self.cells, *self.house, a, b)
    }

    closed spec fn denies(&self, a: Tile, b: Tile) -> bool {
        !self.spreads(a, b)
    }

    proof fn spreads_to_neighbours(&self) {
    }

    fn can_spread(&self, a: (i32, i32), b: (i32, i32)) -> (yes: bool) {
        if !self.house.contains(b.0, b.1) {
            return false;
        }
        match (cell_bits(self.cells, a.0, a.1), cell_bits(self.cells, b.0, b.1)) {
            (Some(here), Some(there)) => here & edge_of(a, b) == 0 && there & edge_of(b, a) == 0,
            _ => false,
        }
    }
}

/// In-house cells reachable from `start` over passable edges (slab-free shared edges).
fn flood_rooms(cells: &Cells, house: &House, start: (i32, i32)) -> (order: Vec<(i32, i32)>)
    requires
        sound(*cells, cells@.len() as int),
    ensures
        order@.no_duplicates(),
        forall|t: Tile| #[trigger]
            order@.contains(t) <==> reaches(indoor_step(*cells, *house), start, t),
{
    let field = RoomsField { cells, house };
    let mut starts: Vec<(i32, i32)> = Vec::new();
    starts.push(start);
    let order = flood(&field, &starts);
    proof {
        let step = indoor_step(*cells, *house);
        assert(flood_step(field) =~= step);
        assert forall|t: Tile| #[trigger] order@.contains(t) <==> reaches(step, start, t) by {
            if reaches(step, start, t) {
                assert(reaches(step, starts@[0], t));
            }
            if flooded(step, starts@, t) {
                let i = choose|i: int| 0 <= i < starts@.len() && reaches(step, #[trigger] starts@[i], t);
                assert(starts@[i] == start);
            }
        }
    }
    order
}

/// Whether `d` is a blocked edge from an accessible cell to a cell of the house that is not.
spec fn door_to_be(cells: Cells, house: House, order: Seq<Tile>, d: (Tile, Tile)) -> bool {
    order.contains(d.0) && adjacent(d.0, d.1) && room_cell(cells, house, d.1) && !order.contains(
        d.1,
    )
}

fn try_door(
    cells: &Cells,
    house: &House,
    seen: &TileSet,
    a: (i32, i32),
    x: i64,
    z: i64,
    out: &mut Vec<((i32, i32), (i32, i32))>,
    Ghost(order): Ghost<Seq<Tile>>,
)
    requires
        sound(*cells, cells@.len() as int),
        seen@ == order.to_set(),
        order.contains(a),
        abs_int(x - a.0) + abs_int(z - a.1) == 1,
        forall|i: int|
            0 <= i < old(out)@.len() ==> door_to_be(*cells, *house, order, #[trigger] old(out)@[i]),
    ensures
        final(out)@.len() >= old(out)@.len(),
        forall|i: int|
            0 <= i < final(out)@.len() ==> door_to_be(
                *cells,
                *house,
                order,
                #[trigger] final(out)@[i],
            ),
        forall|b: Tile|
            b.0 == x && b.1 == z && #[trigger] door_to_be(*cells, *house, order, (a, b))
                ==> final(out)@.len() > 0,
{
    if x < i32::MIN as i64 || x > i32::MAX as i64 || z < i32::MIN as i64 || z > i32::MAX as i64 {
        return;
    }
    let b: Tile = (x as i32, z as i32);
    if seen.contains(b) || !house.contains(b.0, b.1) || cell_bits(cells, b.0, b.1).is_none() {
        return;
    }
    out.push((a, b));
}

/// Blocked edges separating the accessible region from an in-house, not-yet-accessible
/// cell; clearing the slabs on both sides opens the door.
fn door_candidates(cells: &Cells, house: &House, order: &Vec<(i32, i32)>) -> (out: Vec<
    ((i32, i32), (i32, i32)),
>)
    requires
        sound(*cells, cells@.len() as int),
    ensures
        forall|i: int|
            0 <= i < out@.len() ==> door_to_be(*cells, *house, order@, #[trigger] out@[i]),
        out@.len() == 0 ==> forall|a: Tile, b: Tile| !#[trigger]
            door_to_be(*cells, *house, order@, (a, b)),
{
    let mut seen = TileSet::new();
    let mut k: usize = 0;
    assert(seen@ =~= order@.take(0).to_set());
    while k < order.len()
        invariant
            k <= order@.len(),
            seen@ == order@.take(k as int).to_set(),
        decreases order@.len() - k,
    {
        seen.insert(order[k]);
        proof {
            let a = order@.take(k as int);
            let b = order@.take(k + 1);
            assert(b =~= a.push(order@[k as int]));
            assert forall|t: Tile| b.to_set().contains(t) == seen@.contains(t) by {
                if a.contains(t) {
                    let i = choose|i: int| 0 <= i < a.len() && a[i] == t;
                    assert(b[i] == t);
                }
                assert(b[k as int] == order@[k as int]);
                if b.contains(t) {
                    let i = choose|i: int| 0 <= i < b.len() && b[i] == t;
                    if i < k {
                        assert(a[i] == t);
                    }
                }
            }
            assert(seen@ =~= b.to_set());
        }
        k += 1;
    }
    assert(order@.take(k as int) =~= order@);
    let mut out: Vec<((i32, i32), (i32, i32))> = Vec::new();
    let mut i: usize = 0;
    while i < order.len()
        invariant
            sound(*cells, cells@.len() as int),
            seen@ == order@.to_set(),
            i <= order@.len(),
            forall|j: int|
                0 <= j < out@.len() ==> door_to_be(*cells, *house, order@, #[trigger] out@[j]),
            out@.len() == 0 ==> forall|j: int, b: Tile|
                0 <= j < i ==> !#[trigger] door_to_be(*cells, *house, order@, (order@[j], b)),
        decreases order@.len() - i,
    {
        let a: Tile = order[i];
        let x: i64 = a.0 as i64;
        let z: i64 = a.1 as i64;
        assert(order@.contains(a));
        try_door(cells, house, &seen, a, x, z - 1, &mut out, Ghost(order@));
        try_door(cells, house, &seen, a, x, z + 1, &mut out, Ghost(order@));
        try_door(cells, house, &seen, a, x + 1, z, &mut out, Ghost(order@));
        try_door(cells, house, &seen, a, x - 1, z, &mut out, Ghost(order@));
        i += 1;
    }
    proof {
        if out@.len() == 0 {
            assert forall|a: Tile, b: Tile| !#[trigger] door_to_be(*cells, *house, order@, (a, b)) by {
                if order@.contains(a) {
                    let j = choose|j: int| 0 <= j < order@.len() && order@[j] == a;
                    assert(!door_to_be(*cells, *house, order@, (order@[j], b)));
                }
            }
        }
    }
    out
}

/// A tile without the slabs of `bit`.
pub open spec fn cleared(tile: DraftTile, bit: u8) -> DraftTile {
    match tile {
        DraftTile::Wall(bits) => if bits & !bit == 0 {
            DraftTile::Open
        } else {
            DraftTile::Wall(bits & !bit)
        },
        _ => tile,
    }
}

fn clear_edge_bit(cells: &mut Cells, x: i32, z: i32, bit: u8)
    requires
        sound(*old(cells), old(cells)@.len() as int),
    ensures
        final(cells)@.len() == old(cells)@.len(),
        sound(*final(cells), final(cells)@.len() as int),
        forall|u: int, w: int| #[trigger]
            tile_at(*final(cells), u, w) == if u == x && w == z {
                cleared(tile_at(*old(cells), u, w), bit)
            } else {
                tile_at(*old(cells), u, w)
            },
{
    if let DraftTile::Wall(bits) = get_tile(cells, x, z) {
        let rest: u8 = bits & !bit;
        assert(valid_mask(bits) && rest != 0 ==> valid_mask(rest)) by {
            assert(bits <= 15 ==> bits & !bit <= 15) by (bit_vector);
        }
        if rest == 0 {
            set_tile(cells, x, z, DraftTile::Open);
        } else {
            set_tile(cells, x, z, DraftTile::Wall(rest));
        }
    }
}

proof fn lemma_cleared(tile: DraftTile, bit: u8)
    ensures
        looser(tile, cleared(tile, bit)),
        slabs_on(tile) is Some ==> slabs_on(cleared(tile, bit)) is Some && slabs_on(
            cleared(tile, bit),
        )->0 & bit == 0,
        looser(tile, tile),
{
    if let DraftTile::Wall(bits) = tile {
        assert((bits & !bit) & !bits == 0) by (bit_vector);
        assert((bits & !bit) & bit == 0) by (bit_vector);
        assert(0u8 & bit == 0) by (bit_vector);
        assert(bits & !bits == 0) by (bit_vector);
    } else {
        assert(0u8 & bit == 0) by (bit_vector);
    }
}

/// Steps that were possible stay possible when slabs are taken out.
proof fn lemma_looser_steps_indoors(before: Cells, after: Cells, house: House)
    requires
        opens_only(before, after),
    ensures
        forall|a: Tile, b: Tile| #[trigger]
            indoor_step(before, house)(a, b) ==> indoor_step(after, house)(a, b),
        forall|t: Tile| #[trigger] room_cell(after, house, t) == room_cell(before, house, t),
{
    assert forall|t: Tile| #[trigger] room_cell(after, house, t) == room_cell(before, house, t) by {
        assert(looser(
            tile_at(before, t.0 as int, t.1 as int),
            tile_at(after, t.0 as int, t.1 as int),
        ));
    }
    assert forall|a: Tile, b: Tile| #[trigger] indoor_step(before, house)(a, b) implies indoor_step(
        after,
        house,
    )(a, b) by {
        lemma_looser_slabs(
            tile_at(before, a.0 as int, a.1 as int),
            tile_at(after, a.0 as int, a.1 as int),
            edge_towards(a, b),
        );
        lemma_looser_slabs(
            tile_at(before, b.0 as int, b.1 as int),
            tile_at(after, b.0 as int, b.1 as int),
            edge_towards(b, a),
        );
        assert(looser(
            tile_at(before, a.0 as int, a.1 as int),
            tile_at(after, a.0 as int, a.1 as int),
        ));
        assert(looser(
            tile_at(before, b.0 as int, b.1 as int),
            tile_at(after, b.0 as int, b.1 as int),
        ));
    }
}

proof fn lemma_looser_slabs(before: DraftTile, after: DraftTile, edge: u8)
    ensures
        looser(before, after) && slabs_on(before) is Some && slabs_on(before)->0 & edge == 0
            ==> slabs_on(after) is Some && slabs_on(after)->0 & edge == 0,
{
    assert(0u8 & edge == 0) by (bit_vector);
    if let DraftTile::Wall(b) = before {
        if let DraftTile::Wall(a) = after {
            assert(a & !b == 0 && b & edge == 0 ==> a & edge == 0) by (bit_vector);
        }
    }
}

/// Rooms that were joined stay joined when slabs are taken out elsewhere.
pub proof fn joined_rooms_stay_joined(before: Cells, after: Cells, house: House, s: Tile)
    requires
        opens_only(before, after),
        all_joined(before, house, s),
    ensures
        all_joined(after, house, s),
        forall|t: Tile| #[trigger]
            reaches(indoor_step(before, house), s, t) ==> reaches(indoor_step(after, house), s, t),
{
    let old_step = indoor_step(before, house);
    let new_step = indoor_step(after, house);
    lemma_looser_steps_indoors(before, after, house);
    assert forall|t: Tile| #[trigger] reaches(old_step, s, t) implies reaches(new_step, s, t) by {
        lemma_reaches_wider(old_step, new_step, s, t);
    }
    let inside = |t: Tile| reaches(old_step, s, t);
    lemma_reaches_self(old_step, s);
    assert forall|p: Tile, q: Tile| inside(p) && #[trigger] new_step(p, q) implies inside(q) by {
        assert(adjacent(p, q));
        assert(room_cell(after, house, q));
    }
    assert forall|a: Tile, b: Tile|
        #![trigger adjacent(a, b)]
        reaches(new_step, s, a) && adjacent(a, b) && room_cell(after, house, b) implies reaches(
        new_step,
        s,
        b,
    ) by {
        lemma_closed_set_holds_reachable(new_step, inside, s, a);
        assert(room_cell(before, house, b));
        assert(reaches(old_step, s, b));
    }
}

fn first_walkable_in_house(cells: &Cells, house: &House) -> (found: Option<(i32, i32)>)
    requires
        sound(*cells, cells@.len() as int),
        house_fits(*house, cells@.len() as int),
    ensures
        match found {
            Some(t) => is_first_walkable(*cells, *house, t),
            None => forall|u: Tile| !#[trigger] room_cell(*cells, *house, u),
        },
{
    let mut z: i32 = house.z0;
    while z <= house.z1
        invariant
            sound(*cells, cells@.len() as int),
            house_fits(*house, cells@.len() as int),
            house.z0 <= z <= house.z1 + 1,
            forall|u: Tile| #[trigger] room_cell(*cells, *house, u) ==> u.1 >= z,
        decreases house.z1 + 1 - z,
    {
        let mut x: i32 = house.x0;
        while x <= house.x1
            invariant
                sound(*cells, cells@.len() as int),
                house_fits(*house, cells@.len() as int),
                house.z0 <= z <= house.z1,
                house.x0 <= x <= house.x1 + 1,
                forall|u: Tile| #[trigger]
                    room_cell(*cells, *house, u) ==> u.1 > z || u.1 == z && u.0 >= x,
            decreases house.x1 + 1 - x,
        {
            if house.contains(x, z) && cell_bits(cells, x, z).is_some() {
                assert(room_cell(*cells, *house, (x, z)));
                return Some((x, z));
            }
            assert(!room_cell(*cells, *house, (x, z)));
            x += 1;
        }
        proof {
            assert forall|u: Tile| #[trigger] room_cell(*cells, *house, u) implies u.1 >= z + 1 by {
                lemma_in_box(*house, cells@.len() as int, u.0 as int, u.1 as int);
            }
        }
        z += 1;
    }
    proof {
        assert forall|u: Tile| !#[trigger] room_cell(*cells, *house, u) by {
            if room_cell(*cells, *house, u) {
                lemma_in_box(*house, cells@.len() as int, u.0 as int, u.1 as int);
            }
        }
    }
    None
}

/// Whether the door leads from what can be reached to a cell of the house that cannot.
pub open spec fn leads_on(cells: Cells, house: House, s: Tile, door: (Tile, Tile)) -> bool {
    &&& adjacent(door.0, door.1)
    &&& reaches(indoor_step(cells, house), s, door.0)
    &&& room_cell(cells, house, door.1)
    &&& !reaches(indoor_step(cells, house), s, door.1)
}

/// Whether the slabs between the two cells of the door were taken out, and nothing else.
pub open spec fn door_opened(before: Cells, after: Cells, door: (Tile, Tile)) -> bool {
    let (a, b) = door;
    forall|x: int, z: int| #[trigger]
        tile_at(after, x, z) == if x == a.0 && z == a.1 {
            cleared(tile_at(before, x, z), edge_towards(a, b))
        } else if x == b.0 && z == b.1 {
            cleared(tile_at(before, x, z), edge_towards(b, a))
        } else {
            tile_at(before, x, z)
        }
}

/// Whether the grid changed by opening the doors one after the other, each of which led on
/// when it was opened.
pub open spec fn doors_opened(
    states: Seq<Cells>,
    doors: Seq<(Tile, Tile)>,
    before: Cells,
    after: Cells,
    house: House,
    s: Tile,
) -> bool {
    &&& states.len() == doors.len() + 1
    &&& states[0] == before
    &&& states.last() == after
    &&& forall|i: int|
        0 <= i < doors.len() ==> leads_on(states[i], house, s, #[trigger] doors[i]) && door_opened(
            states[i],
            states[i + 1],
            doors[i],
        )
}

/// Whether the rooms of the house were joined, starting from the floor of its doorway.
pub open spec fn rooms_joined(before: Cells, after: Cells, house: House) -> bool {
    if house.entry is None {
        same_tiles(before, after)
    } else {
        exists|s: Option<Tile>| #[trigger]
            starts_at(before, house, s) && match s {
                Some(t) => opens_only(before, after) && all_joined(after, house, t) && slabs_on(
                    tile_at(after, t.0 as int, t.1 as int),
                ) is Some && exists|states: Seq<Cells>, doors: Seq<(Tile, Tile)>| #[trigger]
                    doors_opened(states, doors, before, after, house, t),
                None => same_tiles(before, after),
            }
    }
}

proof fn lemma_one_more_door(
    states: Seq<Cells>,
    doors: Seq<(Tile, Tile)>,
    before: Cells,
    now: Cells,
    after: Cells,
    house: House,
    s: Tile,
    door: (Tile, Tile),
)
    requires
        doors_opened(states, doors, before, now, house, s),
        leads_on(now, house, s, door),
        door_opened(now, after, door),
    ensures
        doors_opened(states.push(after), doors.push(door), before, after, house, s),
{
    let more = states.push(after);
    let all = doors.push(door);
    assert forall|i: int| 0 <= i < all.len() implies leads_on(
        more[i],
        house,
        s,
        #[trigger] all[i],
    ) && door_opened(more[i], more[i + 1], all[i]) by {
        if i < doors.len() {
            assert(all[i] == doors[i] && more[i] == states[i] && more[i + 1] == states[i + 1]);
        } else {
            assert(more[i] == now && more[i + 1] == after);
        }
    }
}

/// Opens doors until every room of the house can be reached from its doorway.
pub fn connect_house_rooms(cells: &mut Cells, house: &House, rng: &mut StdRng)
    requires
        sound(*old(cells), old(cells)@.len() as int),
        house_fits(*house, old(cells)@.len() as int),
        house.entry matches Some(ep) ==> near_grid(ep.wall_x as int, ep.wall_z as int),
    ensures
        final(cells)@.len() == old(cells)@.len(),
        sound(*final(cells), final(cells)@.len() as int),
        rooms_joined(*old(cells), *final(cells), *house),
{
    let entry: HouseEntrypoint = match house.entry {
        Some(ep) => ep,
        None => {
            return;
        },
    };
    let found: Option<(i32, i32)> = match entry_interior_tile(cells, &entry) {
        Some(t) => Some(t),
        None => first_walkable_in_house(cells, house),
    };
    assert(starts_at(*cells, *house, found));
    let start: (i32, i32) = match found {
        Some(t) => t,
        None => {
            return;
        },
    };
    let ghost mut known: Seq<Tile> = seq![];
    let ghost mut states: Seq<Cells> = seq![*cells];
    let ghost mut doors: Seq<(Tile, Tile)> = seq![];
    proof {
        assert(same_tiles(*old(cells), *cells));
        lemma_same_opens_only(*old(cells), *cells);
        assert(slabs_on(tile_at(*cells, start.0 as int, start.1 as int)) is Some);
    }
    loop
        invariant
            cells@.len() == old(cells)@.len(),
            sound(*cells, cells@.len() as int),
            opens_only(*old(cells), *cells),
            doors_opened(states, doors, *old(cells), *cells, *house, start),
            slabs_on(tile_at(*cells, start.0 as int, start.1 as int)) is Some,
            known.no_duplicates(),
            forall|t: Tile| #[trigger]
                known.contains(t) ==> reaches(indoor_step(*cells, *house), start, t),
        ensures
            all_joined(*cells, *house, start),
        decreases 0x1_0000_0000_0000_0000int - known.len(),
    {
        let order = flood_rooms(cells, house, start);
        let candidates = door_candidates(cells, house, &order);
        let ghost step = indoor_step(*cells, *house);
        if candidates.len() == 0 {
            proof {
                assert forall|a: Tile, b: Tile|
                    #![trigger adjacent(a, b)]
                    reaches(step, start, a) && adjacent(a, b) && room_cell(
                        *cells,
                        *house,
                        b,
                    ) implies reaches(step, start, b) by {
                    assert(order@.contains(a));
                    assert(!door_to_be(*cells, *house, order@, (a, b)));
                    assert(order@.contains(b));
                }
            }
            break;
        }
        let k: usize = rng::index_below(rng, candidates.len());
        let (a, b) = candidates[k];
        let ghost before = *cells;
        assert(door_to_be(before, *house, order@, candidates@[k as int]));
        clear_edge_bit(cells, a.0, a.1, edge_of(a, b));
        let ghost mid = *cells;
        clear_edge_bit(cells, b.0, b.1, edge_of(b, a));
        proof {
            let after = *cells;
            let door = (a, b);
            assert(leads_on(before, *house, start, door));
            assert(door_opened(before, after, door));
            lemma_one_more_door(
                states,
                doors,
                *old(cells),
                before,
                after,
                *house,
                start,
                door,
            );
            states = states.push(after);
            doors = doors.push(door);
            assert forall|x: int, z: int| looser(
                tile_at(before, x, z),
                #[trigger] tile_at(after, x, z),
            ) by {
                lemma_cleared(tile_at(before, x, z), edge_towards(a, b));
                lemma_cleared(tile_at(before, x, z), edge_towards(b, a));
                assert(tile_at(mid, x, z) == tile_at(mid, x, z));
            }
            lemma_opens_only_steps(*old(cells), before, after);
            lemma_looser_steps_indoors(before, after, *house);
            let new_step = indoor_step(after, *house);
            lemma_cleared(tile_at(before, a.0 as int, a.1 as int), edge_towards(a, b));
            lemma_cleared(tile_at(before, b.0 as int, b.1 as int), edge_towards(b, a));
            assert(looser(
                tile_at(before, start.0 as int, start.1 as int),
                tile_at(after, start.0 as int, start.1 as int),
            ));
            lemma_reached_cells_walk(before, *house, start, a);
            assert(tile_at(mid, a.0 as int, a.1 as int) == cleared(
                tile_at(before, a.0 as int, a.1 as int),
                edge_towards(a, b),
            ));
            assert(tile_at(mid, b.0 as int, b.1 as int) == tile_at(before, b.0 as int, b.1 as int));
            assert(tile_at(after, a.0 as int, a.1 as int) == tile_at(mid, a.0 as int, a.1 as int));
            assert(new_step(a, b));
            lemma_reaches_wider(step, new_step, start, a);
            lemma_reaches_step(new_step, start, a, b);
            lemma_push_new(order@, b);
            lemma_sublist_shorter(known, order@);
            known = order@.push(b);
            lemma_tile_count(known);
            assert forall|t: Tile| #[trigger] known.contains(t) implies reaches(
                new_step,
                start,
                t,
            ) by {
                if t != b {
                    lemma_reaches_wider(step, new_step, start, t);
                }
            }
        }
    }
}

/// What can be reached can be walked on.
proof fn lemma_reached_cells_walk(cells: Cells, house: House, s: Tile, t: Tile)
    requires
        slabs_on(tile_at(cells, s.0 as int, s.1 as int)) is Some,
        reaches(indoor_step(cells, house), s, t),
    ensures
        slabs_on(tile_at(cells, t.0 as int, t.1 as int)) is Some,
{
    let inside = |p: Tile| slabs_on(tile_at(cells, p.0 as int, p.1 as int)) is Some;
    lemma_closed_set_holds_reachable(indoor_step(cells, house), inside, s, t);
}

proof fn lemma_sublist_shorter(a: Seq<Tile>, b: Seq<Tile>)
    requires
        a.no_duplicates(),
        b.no_duplicates(),
        forall|t: Tile| #[trigger] a.contains(t) ==> b.contains(t),
    ensures
        a.len() <= b.len(),
{
    a.unique_seq_to_set();
    b.unique_seq_to_set();
    assert(a.to_set().subset_of(b.to_set()));
    vstd::seq_lib::seq_to_set_is_finite(b);
    vstd::set_lib::lemma_len_subset(a.to_set(), b.to_set());
}

} // verus!
