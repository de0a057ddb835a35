//! Step 11: 3–7 lamp decorations per house, placed on wall cells (inner sconces)
//! and on road cells adjacent to outer walls (exterior sconces).
//!
//! Inner sconce (`Lamp`): stored on a Wall cell; the facing bit must exist in
//! the wall mask; the adjacent cell in that direction must be passable interior.
//!
//! Outer sconce (`LampOuter`): stored on a road cell just outside the house;
//! the facing is the direction FROM the road cell TOWARD the adjacent wall, whose
//! slab must face back toward the road cell. Prevents floating lamps.
use rand::rngs::StdRng;
use vstd::prelude::*;

use crate::map::map_generator::draft::{get_tile, sound, tile_at, Cells, DraftTile, MapDraft};
use crate::map::map_generator::grid::{in_grid, is_square, put, read, value_at};
use crate::map::map_generator::house::{house_fits, House};
use crate::map::map_generator::step_door::lemma_in_box;
use crate::map::world_map::{LampDecoration, LampFacing};
use crate::rng;

verus! {

const MIN_LAMPS_PER_HOUSE: i32 = 3;

const MAX_LAMPS_PER_HOUSE: i32 = 7;

/// Rows of lamps.
pub type Lamps = Vec<Vec<LampDecoration>>;

/// Offset to the neighbour that a lamp looks at.
pub open spec fn lamp_delta(facing: LampFacing) -> (int, int) {
    match facing {
        LampFacing::North => (0, -1),
        LampFacing::South => (0, 1),
        LampFacing::East => (1, 0),
        LampFacing::West => (-1, 0),
    }
}

/// The slab on the edge in the facing direction.
pub open spec fn lamp_bit(facing: LampFacing) -> u8 {
    match facing {
        LampFacing::North => 1,
        LampFacing::South => 2,
        LampFacing::East => 4,
        LampFacing::West => 8,
    }
}

/// The slab of the wall ahead that faces back.
pub open spec fn back_bit(facing: LampFacing) -> u8 {
    match facing {
        LampFacing::North => 2,
        LampFacing::South => 1,
        LampFacing::East => 8,
        LampFacing::West => 4,
    }
}

fn delta_of(facing: LampFacing) -> (delta: (i32, i32))
    ensures
        delta.0 == lamp_delta(facing).0,
        delta.1 == lamp_delta(facing).1,
{
    match facing {
        LampFacing::North => (0, -1),
        LampFacing::South => (0, 1),
        LampFacing::East => (1, 0),
        LampFacing::West => (-1, 0),
    }
}

fn bit_of(facing: LampFacing) -> (bit: u8)
    ensures
        bit == lamp_bit(facing),
{
    match facing {
        LampFacing::North => 1,
        LampFacing::South => 2,
        LampFacing::East => 4,
        LampFacing::West => 8,
    }
}

/// Given the direction from road cell to wall cell, the slab bit that the wall must have
/// facing BACK toward the road cell.
pub fn slab_bit_toward_road(facing: LampFacing) -> (bit: u8)
    ensures
        bit == back_bit(facing),
{
    match facing {
        LampFacing::North => 2,
        LampFacing::South => 1,
        LampFacing::East => 8,
        LampFacing::West => 4,
    }
}

/// Whether an inner sconce may hang at (x, z): on a slab of a wall cell that faces passable
/// floor of the house.
pub open spec fn inner_lamp(cells: Cells, house: House, x: int, z: int, f: LampFacing) -> bool {
    let ahead = tile_at(cells, x + lamp_delta(f).0, z + lamp_delta(f).1);
    &&& tile_at(cells, x, z) matches DraftTile::Wall(bits) && bits & lamp_bit(f) != 0
    &&& ahead is Open || ahead is Charger
    &&& house.has(x + lamp_delta(f).0, z + lamp_delta(f).1)
}

/// Whether an outer sconce may stand at (x, z): on road near the house but outside it, ahead
/// of a wall whose slab faces back.
pub open spec fn outer_lamp(cells: Cells, house: House, x: int, z: int, f: LampFacing) -> bool {
    &&& house.x0 - 2 <= x <= house.x1 + 2
    &&& house.z0 - 2 <= z <= house.z1 + 2
    &&& tile_at(cells, x, z) == DraftTile::Open
    &&& !house.has(x, z)
    &&& tile_at(cells, x + lamp_delta(f).0, z + lamp_delta(f).1) matches DraftTile::Wall(bits)
        && bits & back_bit(f) != 0
}

/// A place for a lamp: cell and decoration.
pub type LampSite = (i32, i32, LampDecoration);

/// Whether the lamp may be put at (x, z): the place is right and holds no lamp yet.
pub open spec fn lamp_site(
    cells: Cells,
    lamps: Lamps,
    house: House,
    x: int,
    z: int,
    lamp: LampDecoration,
) -> bool {
    &&& in_grid(cells@.len() as int, x, z)
    &&& value_at(lamps, x, z) == LampDecoration::Bare
    &&& match lamp {
        LampDecoration::Lamp(f) => inner_lamp(cells, house, x, z, f),
        LampDecoration::LampOuter(f) => outer_lamp(cells, house, x, z, f),
        LampDecoration::Bare => false,
    }
}

fn is_inner_lamp(cells: &Cells, house: &House, x: i32, z: i32, f: LampFacing) -> (yes: bool)
    requires
        sound(*cells, cells@.len() as int),
        in_grid(cells@.len() as int, x as int, z as int),
    ensures
        yes == inner_lamp(*cells, *house, x as int, z as int, f),
{
    let (dx, dz) = delta_of(f);
    match get_tile(cells, x, z) {
        DraftTile::Wall(bits) => bits & bit_of(f) != 0 && matches!(
            get_tile(cells, x + dx, z + dz),
            DraftTile::Open | DraftTile::Charger(_)
        ) && house.contains(x + dx, z + dz),
        _ => false,
    }
}

fn is_outer_lamp(cells: &Cells, house: &House, x: i32, z: i32, f: LampFacing) -> (yes: bool)
    requires
        sound(*cells, cells@.len() as int),
        in_grid(cells@.len() as int, x as int, z as int),
        house_fits(*house, cells@.len() as int),
    ensures
        yes == outer_lamp(*cells, *house, x as int, z as int, f),
{
    if x < house.x0 - 2 || x > house.x1 + 2 || z < house.z0 - 2 || z > house.z1 + 2 {
        return false;
    }
    if get_tile(cells, x, z) != DraftTile::Open || house.contains(x, z) {
        return false;
    }
    let (dx, dz) = delta_of(f);
    match get_tile(cells, x + dx, z + dz) {
        DraftTile::Wall(bits) => bits & slab_bit_toward_road(f) != 0,
        _ => false,
    }
}

/// Whether the list holds just the lamp sites of the house.
pub open spec fn lists_lamps(
    cells: Cells,
    lamps: Lamps,
    house: House,
    sites: Seq<LampSite>,
) -> bool {
    &&& forall|i: int|
        0 <= i < sites.len() ==> lamp_site(
            cells,
            lamps,
            house,
            (#[trigger] sites[i]).0 as int,
            sites[i].1 as int,
            sites[i].2,
        )
    &&& forall|x: int, z: int, lamp: LampDecoration| #[trigger]
        lamp_site(cells, lamps, house, x, z, lamp) ==> sites.contains((x as i32, z as i32, lamp))
}

spec fn lamps_before(
    cells: Cells,
    lamps: Lamps,
    house: House,
    sites: Seq<LampSite>,
    x: int,
    z: int,
) -> bool {
    &&& forall|i: int|
        0 <= i < sites.len() ==> lamp_site(
            cells,
            lamps,
            house,
            (#[trigger] sites[i]).0 as int,
            sites[i].1 as int,
            sites[i].2,
        )
    &&& forall|u: int, w: int, lamp: LampDecoration| #[trigger]
        lamp_site(cells, lamps, house, u, w, lamp) && (w < z || w == z && u < x)
            ==> sites.contains((u as i32, w as i32, lamp))
}

fn try_lamps(
    cells: &Cells,
    lamps: &Lamps,
    house: &House,
    x: i32,
    z: i32,
    f: LampFacing,
    sites: &mut Vec<LampSite>,
)
    requires
        sound(*cells, cells@.len() as int),
        is_square(*lamps, cells@.len() as int),
        in_grid(cells@.len() as int, x as int, z as int),
        house_fits(*house, cells@.len() as int),
        forall|i: int|
            0 <= i < old(sites)@.len() ==> lamp_site(
                *cells,
                *lamps,
                *house,
                (#[trigger] old(sites)@[i]).0 as int,
                old(sites)@[i].1 as int,
                old(sites)@[i].2,
            ),
    ensures
        forall|i: int|
            0 <= i < final(sites)@.len() ==> lamp_site(
                *cells,
                *lamps,
                *house,
                (#[trigger] final(sites)@[i]).0 as int,
                final(sites)@[i].1 as int,
                final(sites)@[i].2,
            ),
        forall|s: LampSite| #[trigger] old(sites)@.contains(s) ==> final(sites)@.contains(s),
        lamp_site(*cells, *lamps, *house, x as int, z as int, LampDecoration::Lamp(f)) ==> final(
            sites)@.contains((x, z, LampDecoration::Lamp(f))),
        lamp_site(*cells, *lamps, *house, x as int, z as int, LampDecoration::LampOuter(f))
            ==> final(sites)@.contains((x, z, LampDecoration::LampOuter(f))),
{
    if read(lamps, x, z) != LampDecoration::Bare {
        return;
    }
    let ghost s0 = sites@;
    let inner: bool = is_inner_lamp(cells, house, x, z, f);
    if inner {
        sites.push((x, z, LampDecoration::Lamp(f)));
    }
    let ghost s1 = sites@;
    let outer: bool = is_outer_lamp(cells, house, x, z, f);
    if outer {
        sites.push((x, z, LampDecoration::LampOuter(f)));
    }
    proof {
        lemma_lamp_pushed(s0, s1, (x, z, LampDecoration::Lamp(f)), inner);
        lemma_lamp_pushed(s1, sites@, (x, z, LampDecoration::LampOuter(f)), outer);
    }
}

proof fn lemma_lamp_pushed(a: Seq<LampSite>, b: Seq<LampSite>, s: LampSite, pushed: bool)
    requires
        b == (if pushed {
            a.push(s)
        } else {
            a
        }),
    ensures
        forall|t: LampSite| #[trigger] a.contains(t) ==> b.contains(t),
        pushed ==> b.contains(s),
{
    assert forall|t: LampSite| #[trigger] a.contains(t) implies b.contains(t) by {
        let i = choose|i: int| 0 <= i < a.len() && a[i] == t;
        assert(b[i] == t);
    }
    if pushed {
        assert(b[a.len() as int] == s);
    }
}

/// The lamp sites of a house.
fn lamp_sites(cells: &Cells, lamps: &Lamps, house: &House) -> (sites: Vec<LampSite>)
    requires
        sound(*cells, cells@.len() as int),
        is_square(*lamps, cells@.len() as int),
        house_fits(*house, cells@.len() as int),
    ensures
        lists_lamps(*cells, *lamps, *house, sites@),
{
    let ghost n = cells@.len() as int;
    let size: i32 = cells.len() as i32;
    let x_lo: i32 = if house.x0 < 2 { 0 } else { house.x0 - 2 };
    let z_lo: i32 = if house.z0 < 2 { 0 } else { house.z0 - 2 };
    let x_hi: i32 = if house.x1 + 3 > size { size } else { house.x1 + 3 };
    let z_hi: i32 = if house.z1 + 3 > size { size } else { house.z1 + 3 };
    let mut sites: Vec<LampSite> = Vec::new();
    let mut z: i32 = z_lo;
    proof {
        assert forall|u: int, w: int, lamp: LampDecoration| #[trigger]
            lamp_site(*cells, *lamps, *house, u, w, lamp) implies x_lo <= u < x_hi && z_lo <= w
            < z_hi by {
            if let LampDecoration::Lamp(f) = lamp {
                lemma_in_box(*house, n, u + lamp_delta(f).0, w + lamp_delta(f).1);
            }
        }
    }
    while z < z_hi
        invariant
            sound(*cells, n),
            n == cells@.len(),
            n == size,
            is_square(*lamps, n),
            house_fits(*house, n),
            0 <= x_lo,
            x_hi <= size,
            0 <= z_lo <= z,
            z_hi <= size,
            forall|u: int, w: int, lamp: LampDecoration| #[trigger]
                lamp_site(*cells, *lamps, *house, u, w, lamp) ==> x_lo <= u < x_hi && z_lo <= w
                    < z_hi,
            lamps_before(*cells, *lamps, *house, sites@, x_lo as int, z as int),
        decreases z_hi - z,
    {
        let mut x: i32 = x_lo;
        while x < x_hi
            invariant
                sound(*cells, n),
                n == cells@.len(),
                n == size,
                is_square(*lamps, n),
                house_fits(*house, n),
                0 <= x_lo <= x,
                x_hi <= size,
                0 <= z_lo <= z < z_hi <= size,
                lamps_before(*cells, *lamps, *house, sites@, x as int, z as int),
            decreases x_hi - x,
        {
            try_lamps(cells, lamps, house, x, z, LampFacing::North, &mut sites);
            try_lamps(cells, lamps, house, x, z, LampFacing::South, &mut sites);
            try_lamps(cells, lamps, house, x, z, LampFacing::East, &mut sites);
            try_lamps(cells, lamps, house, x, z, LampFacing::West, &mut sites);
            x += 1;
        }
        z += 1;
    }
    sites
}

/// A random lamp site; none if there is none.
fn pick_lamp_site(cells: &Cells, lamps: &Lamps, house: &House, rng: &mut StdRng) -> (site: Option<
    LampSite,
>)
    requires
        sound(*cells, cells@.len() as int),
        is_square(*lamps, cells@.len() as int),
        house_fits(*house, cells@.len() as int),
    ensures
        match site {
            Some(s) => lamp_site(*cells, *lamps, *house, s.0 as int, s.1 as int, s.2),
            None => no_lamp_site(*cells, *lamps, *house),
        },
{
    let sites = lamp_sites(cells, lamps, house);
    if sites.len() == 0 {
        proof {
            assert forall|x: int, z: int, lamp: LampDecoration| !#[trigger]
                lamp_site(*cells, *lamps, *house, x, z, lamp) by {
                if lamp_site(*cells, *lamps, *house, x, z, lamp) {
                    assert(sites@.contains((x as i32, z as i32, lamp)));
                }
            }
        }
        return None;
    }
    let k: usize = rng::index_below(rng, sites.len());
    Some(sites[k])
}

/// Whether no lamp site of the house is left.
pub open spec fn no_lamp_site(cells: Cells, lamps: Lamps, house: House) -> bool {
    forall|x: int, z: int, lamp: LampDecoration| !#[trigger]
        lamp_site(cells, lamps, house, x, z, lamp)
}

/// Whether `after` is `before` with one more lamp at a site of the house.
pub open spec fn lamp_put(
    cells: Cells,
    before: Lamps,
    after: Lamps,
    house: House,
    site: LampSite,
) -> bool {
    &&& lamp_site(cells, before, house, site.0 as int, site.1 as int, site.2)
    &&& forall|x: int, z: int|
        in_grid(cells@.len() as int, x, z) ==> #[trigger] value_at(after, x, z) == if x == site.0
            && z == site.1 {
            site.2
        } else {
            value_at(before, x, z)
        }
}

/// Whether the states lead from `before` to `after`, each putting up one more lamp.
pub open spec fn lamps_put(
    cells: Cells,
    before: Lamps,
    after: Lamps,
    house: House,
    states: Seq<Lamps>,
    sites: Seq<LampSite>,
) -> bool {
    &&& states.len() == sites.len() + 1
    &&& states[0] == before
    &&& states.last() == after
    &&& forall|i: int|
        0 <= i < sites.len() ==> lamp_put(
            cells,
            states[i],
            states[i + 1],
            house,
            #[trigger] sites[i],
        )
}

/// Whether a house got `count` lamps, or as many as it has sites for.
pub open spec fn lamps_counted(
    cells: Cells,
    before: Lamps,
    after: Lamps,
    house: House,
    count: int,
) -> bool {
    exists|states: Seq<Lamps>, sites: Seq<LampSite>| #[trigger]
        lamps_put(cells, before, after, house, states, sites) && sites.len() <= count && (
        sites.len() < count ==> no_lamp_site(cells, after, house))
}

/// Whether a house got three to seven lamps, or as many as it has sites for.
pub open spec fn lamps_placed(cells: Cells, before: Lamps, after: Lamps, house: House) -> bool {
    exists|states: Seq<Lamps>, sites: Seq<LampSite>| #[trigger]
        lamps_put(cells, before, after, house, states, sites) && sites.len() <= 7 && (sites.len()
            < 3 ==> no_lamp_site(cells, after, house))
}

/// Puts up `count` lamps in a house, or as many as it has sites for.
pub fn place_lamps(lamps: &mut Lamps, cells: &Cells, house: &House, count: i32, rng: &mut StdRng)
    requires
        sound(*cells, cells@.len() as int),
        is_square(*old(lamps), cells@.len() as int),
        house_fits(*house, cells@.len() as int),
        3 <= count <= 7,
    ensures
        is_square(*final(lamps), cells@.len() as int),
        lamps_counted(*cells, *old(lamps), *final(lamps), *house, count as int),
{
    let ghost mut states: Seq<Lamps> = seq![*lamps];
    let ghost mut sites: Seq<LampSite> = seq![];
    let mut k: i32 = 0;
    while k < count
        invariant_except_break
            sites.len() == k,
        invariant
            sound(*cells, cells@.len() as int),
            is_square(*lamps, cells@.len() as int),
            house_fits(*house, cells@.len() as int),
            0 <= k <= count,
            3 <= count <= 7,
            sites.len() <= count,
            lamps_put(*cells, *old(lamps), *lamps, *house, states, sites),
        ensures
            sites.len() < count ==> no_lamp_site(*cells, *lamps, *house),
        decreases count - k,
    {
        match pick_lamp_site(cells, lamps, house, rng) {
            Some((x, z, lamp)) => {
                let ghost before = *lamps;
                put(lamps, x, z, lamp);
                proof {
                    let old_states = states;
                    let old_sites = sites;
                    states = states.push(*lamps);
                    sites = sites.push((x, z, lamp));
                    assert(lamp_put(*cells, before, *lamps, *house, (x, z, lamp)));
                    assert forall|i: int| 0 <= i < sites.len() implies lamp_put(
                        *cells,
                        states[i],
                        states[i + 1],
                        *house,
                        #[trigger] sites[i],
                    ) by {
                        if i < old_sites.len() {
                            assert(sites[i] == old_sites[i]);
                        }
                    }
                }
            },
            None => {
                break;
            },
        }
        k += 1;
    }
}

/// Whether the houses got their lamps.
pub open spec fn lamps_hung(before: MapDraft, after: MapDraft) -> bool {
    &&& after == (MapDraft {
        lamps: after.lamps,
        rng: after.rng,
        ..before
    })
    &&& exists|states: Seq<Lamps>|
        #![trigger lamp_chain(states, before.lamps, after.lamps)]
        {
            &&& lamp_chain(states, before.lamps, after.lamps)
            &&& states.len() == before.houses@.len() + 1
            &&& forall|i: int|
                0 <= i < before.houses@.len() ==> lamps_placed(
                    before.cells,
                    states[i],
                    states[i + 1],
                    #[trigger] before.houses@[i],
                )
        }
}

impl MapDraft {
    /// Three to seven lamps per house.
    pub fn step_place_lamps(&mut self)
        requires
            old(self).wf(),
        ensures
            final(self).wf(),
            lamps_hung(*old(self), *final(self)),
    {
        let ghost mut states: Seq<Lamps> = seq![self.lamps];
        let mut idx: usize = 0;
        while idx < self.houses.len()
            invariant
                self.wf(),
                *self == (MapDraft { lamps: self.lamps, rng: self.rng, ..*old(self) }),
                idx <= self.houses@.len(),
                lamp_chain(states, old(self).lamps, self.lamps),
                states.len() == idx + 1,
                forall|i: int|
                    0 <= i < idx ==> lamps_placed(
                        self.cells,
                        states[i],
                        states[i + 1],
                        #[trigger] self.houses@[i],
                    ),
            decreases self.houses@.len() - idx,
        {
            assert(house_fits(self.houses@[idx as int], self.size as int));
            let count: i32 = rng::range(&mut self.rng, MIN_LAMPS_PER_HOUSE, MAX_LAMPS_PER_HOUSE);
            place_lamps(
                &mut self.lamps,
                &self.cells,
                &self.houses[idx],
                count,
                &mut self.rng,
            );
            proof {
                states = states.push(self.lamps);
            }
            idx += 1;
        }
    }
}

/// Whether the states start with one grid and end with the other.
pub open spec fn lamp_chain(states: Seq<Lamps>, before: Lamps, after: Lamps) -> bool {
    states.len() > 0 && states[0] == before && states.last() == after
}

} // verus!
