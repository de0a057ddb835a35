//! Step 9b: split each house into rooms with axis-aligned inner walls (no doors yet).
//!
//! One line is budgeted per [`AREA_PER_INNER_WALL`] cells of footprint, split between
//! horizontal and vertical orientations (ceiling to H) and capped per axis.
//! A candidate cut is accepted only when:
//!   1. every resulting sub-room has area >= [`MIN_ROOM_AREA`] cells,
//!   2. every resulting sub-room is at least [`MIN_ROOM_DIM`] cells in either
//!      direction (no 1-unit-wide spaces),
//!   3. the cut is at least [`MIN_PARALLEL_WALL_DISTANCE`] cells away from any
//!      existing parallel wall — outer perimeter or inner wall placed earlier.
use rand::rngs::StdRng;
use vstd::prelude::*;

use crate::map::map_generator::draft::{
    get_tile, set_tile, sound, tile_at, Cells, DraftTile, MapDraft,
};
use crate::map::map_generator::grid::in_grid;
use crate::map::map_generator::house::{house_fits, House};
use crate::map::map_generator::step_door::lemma_in_box;
use crate::map::map_generator::types::{
    HouseEntrypoint, AREA_PER_INNER_WALL, MAX_INNER_WALL_CUTS_PER_AXIS,
    MIN_HOUSE_AREA_FOR_INNER_WALLS, MIN_PARALLEL_WALL_DISTANCE, MIN_ROOM_AREA, MIN_ROOM_DIM,
};
use crate::map::search::abs_int;
use crate::map::world_map::{valid_mask, MASK_NORTH, MASK_WEST};
use crate::rng;

verus! {

/// Whether every room between neighbouring cut lines is wide and large enough.
pub open spec fn rooms_fit(h: Seq<i32>, v: Seq<i32>) -> bool {
    &&& forall|i: int| 0 <= i < h.len() - 1 ==> #[trigger] gap(h, i) >= 2
    &&& forall|i: int, j: int|
        0 <= i < h.len() - 1 && 0 <= j < v.len() - 1 ==> #[trigger] room_fits(h, v, i, j)
}

/// Whether the room between lines `i` and `i + 1` across and `j` and `j + 1` is large enough.
pub open spec fn room_fits(h: Seq<i32>, v: Seq<i32>, i: int, j: int) -> bool {
    gap(v, j) >= 2 && gap(h, i) * gap(v, j) >= 6
}

/// Distance between a cut line and the next one.
pub open spec fn gap(cuts: Seq<i32>, i: int) -> int {
    cuts[i + 1] - cuts[i]
}

/// Cut lines between 0 and the longest side, in ascending order.
pub open spec fn are_lines(cuts: Seq<i32>) -> bool {
    &&& forall|i: int| 0 <= i < cuts.len() ==> 0 <= #[trigger] cuts[i] <= 46340
    &&& forall|i: int, j: int|
        0 <= i < j < cuts.len() ==> #[trigger] cuts[i] < #[trigger] cuts[j]
}

/// Number of leading lines up to `c`.
pub open spec fn lead(cuts: Seq<i32>, c: i32) -> int
    decreases cuts.len(),
{
    if cuts.len() == 0 || cuts[0] > c {
        0
    } else {
        1 + lead(cuts.skip(1), c)
    }
}

/// The lines with `c` put in its place.
pub open spec fn with_line(cuts: Seq<i32>, c: i32) -> Seq<i32> {
    cuts.insert(lead(cuts, c), c)
}

proof fn lemma_lead(cuts: Seq<i32>, c: i32)
    ensures
        0 <= lead(cuts, c) <= cuts.len(),
        forall|i: int| 0 <= i < lead(cuts, c) ==> #[trigger] cuts[i] <= c,
        lead(cuts, c) < cuts.len() ==> cuts[lead(cuts, c)] > c,
    decreases cuts.len(),
{
    if cuts.len() > 0 && cuts[0] <= c {
        lemma_lead(cuts.skip(1), c);
        assert forall|i: int| 0 <= i < lead(cuts, c) implies #[trigger] cuts[i] <= c by {
            if i > 0 {
                assert(cuts.skip(1)[i - 1] == cuts[i]);
            }
        }
    }
}

proof fn lemma_lead_at(cuts: Seq<i32>, c: i32, k: int)
    requires
        0 <= k <= cuts.len(),
        forall|i: int| 0 <= i < k ==> #[trigger] cuts[i] <= c,
        k < cuts.len() ==> cuts[k] > c,
    ensures
        lead(cuts, c) == k,
    decreases cuts.len(),
{
    if cuts.len() > 0 && k > 0 {
        assert(cuts[0] <= c);
        assert forall|i: int| 0 <= i < k - 1 implies #[trigger] cuts.skip(1)[i] <= c by {
            assert(cuts[i + 1] <= c);
        }
        lemma_lead_at(cuts.skip(1), c, k - 1);
    }
}

proof fn lemma_with_line(cuts: Seq<i32>, c: i32)
    requires
        are_lines(cuts),
        0 <= c <= 46340,
        forall|i: int| 0 <= i < cuts.len() ==> #[trigger] cuts[i] != c,
    ensures
        are_lines(with_line(cuts, c)),
        with_line(cuts, c).len() == cuts.len() + 1,
{
    lemma_lead(cuts, c);
    let k = lead(cuts, c);
    let out = with_line(cuts, c);
    assert forall|i: int, j: int| 0 <= i < j < out.len() implies #[trigger] out[i]
        < #[trigger] out[j] by {
        if k < cuts.len() && j > k {
            assert(out[j] == cuts[j - 1]);
            assert(cuts[k] <= cuts[j - 1]) by {
                if k < j - 1 {
                    assert(cuts[k] < cuts[j - 1]);
                }
            }
        }
    }
}

/// Puts a line in its place.
fn insert_sorted(cuts: &mut Vec<i32>, c: i32)
    ensures
        final(cuts)@ == with_line(old(cuts)@, c),
{
    let mut k: usize = 0;
    while k < cuts.len() && cuts[k] <= c
        invariant
            cuts@ == old(cuts)@,
            k <= cuts@.len(),
            forall|i: int| 0 <= i < k ==> #[trigger] cuts@[i] <= c,
        decreases cuts@.len() - k,
    {
        k += 1;
    }
    proof {
        lemma_lead_at(cuts@, c, k as int);
    }
    cuts.insert(k, c);
}

fn copy_lines(cuts: &Vec<i32>) -> (out: Vec<i32>)
    ensures
        out@ == cuts@,
{
    let mut out: Vec<i32> = Vec::with_capacity(cuts.len());
    let mut i: usize = 0;
    while i < cuts.len()
        invariant
            i <= cuts@.len(),
            out@ == cuts@.take(i as int),
        decreases cuts@.len() - i,
    {
        out.push(cuts[i]);
        i += 1;
        assert(out@ =~= cuts@.take(i as int));
    }
    assert(out@ =~= cuts@);
    out
}

/// All bbox sub-rooms defined by `h_cuts` × `v_cuts` satisfy area + min-dim rules.
pub fn grid_rooms_satisfy(h_cuts: &[i32], v_cuts: &[i32]) -> (ok: bool)
    requires
        h_cuts@.len() > 0,
        v_cuts@.len() > 0,
        are_lines(h_cuts@),
        are_lines(v_cuts@),
    ensures
        ok == rooms_fit(h_cuts@, v_cuts@),
{
    let mut i: usize = 0;
    while i < h_cuts.len() - 1
        invariant
            h_cuts@.len() > 0,
            v_cuts@.len() > 0,
            are_lines(h_cuts@),
            are_lines(v_cuts@),
            i <= h_cuts@.len() - 1,
            forall|k: int| 0 <= k < i ==> #[trigger] gap(h_cuts@, k) >= 2,
            forall|k: int, j: int|
                0 <= k < i && 0 <= j < v_cuts@.len() - 1 ==> #[trigger] room_fits(
                    h_cuts@,
                    v_cuts@,
                    k,
                    j,
                ),
        decreases h_cuts@.len() - i,
    {
        let h_diff: i32 = h_cuts[i + 1] - h_cuts[i];
        assert(h_diff == gap(h_cuts@, i as int));
        if h_diff < MIN_ROOM_DIM {
            return false;
        }
        let mut j: usize = 0;
        while j < v_cuts.len() - 1
            invariant
                v_cuts@.len() > 0,
                are_lines(v_cuts@),
                i < h_cuts@.len() - 1,
                j <= v_cuts@.len() - 1,
                h_diff == gap(h_cuts@, i as int),
                2 <= h_diff <= 46340,
                forall|k: int|
                    0 <= k < j ==> #[trigger] room_fits(h_cuts@, v_cuts@, i as int, k),
            decreases v_cuts@.len() - j,
        {
            let v_diff: i32 = v_cuts[j + 1] - v_cuts[j];
            assert(v_diff == gap(v_cuts@, j as int));
            if v_diff < MIN_ROOM_DIM {
                assert(!room_fits(h_cuts@, v_cuts@, i as int, j as int));
                return false;
            }
            assert(h_diff * v_diff <= 46340 * 46340) by (nonlinear_arith)
                requires
                    0 <= h_diff <= 46340,
                    0 <= v_diff <= 46340,
            ;
            if h_diff * v_diff < MIN_ROOM_AREA {
                assert(!room_fits(h_cuts@, v_cuts@, i as int, j as int));
                return false;
            }
            j += 1;
        }
        i += 1;
    }
    assert(i == h_cuts@.len() - 1);
    true
}

/// Whether `c` may become a cut line beside the lines `own`, with `other` across them.
pub open spec fn cut_fits(own: Seq<i32>, other: Seq<i32>, horizontal: bool, c: i32) -> bool {
    &&& forall|i: int| 0 <= i < own.len() ==> abs_int(c - #[trigger] own[i]) >= 2
    &&& if horizontal {
        rooms_fit(with_line(own, c), other)
    } else {
        rooms_fit(other, with_line(own, c))
    }
}

/// Whether `c` may become a cut line.
pub fn is_cut(own: &Vec<i32>, other: &Vec<i32>, horizontal: bool, c: i32) -> (ok: bool)
    requires
        own@.len() > 0,
        other@.len() > 0,
        are_lines(own@),
        are_lines(other@),
        0 <= c <= 46340,
    ensures
        ok == cut_fits(own@, other@, horizontal, c),
{
    let mut i: usize = 0;
    while i < own.len()
        invariant
            are_lines(own@),
            0 <= c <= 46340,
            i <= own@.len(),
            forall|j: int| 0 <= j < i ==> abs_int(c - #[trigger] own@[j]) >= 2,
        decreases own@.len() - i,
    {
        let d: i32 = c - own[i];
        let a: i32 = if d < 0 { -d } else { d };
        if a < MIN_PARALLEL_WALL_DISTANCE {
            assert(abs_int(c - own@[i as int]) < 2);
            return false;
        }
        i += 1;
    }
    proof {
        assert forall|i: int| 0 <= i < own@.len() implies #[trigger] own@[i] != c by {
            assert(abs_int(c - own@[i]) >= 2);
        }
        lemma_with_line(own@, c);
    }
    let mut lines: Vec<i32> = copy_lines(own);
    insert_sorted(&mut lines, c);
    if horizontal {
        grid_rooms_satisfy(lines.as_slice(), other.as_slice())
    } else {
        grid_rooms_satisfy(other.as_slice(), lines.as_slice())
    }
}

/// A random cut line among those that fit; none if none fits.
fn pick_cut(
    rng: &mut StdRng,
    lo: i32,
    hi: i32,
    own: &Vec<i32>,
    other: &Vec<i32>,
    horizontal: bool,
) -> (cut: Option<i32>)
    requires
        own@.len() > 0,
        other@.len() > 0,
        are_lines(own@),
        are_lines(other@),
        0 <= lo <= 46340,
        hi <= 46340,
    ensures
        match cut {
            Some(c) => lo <= c <= hi && cut_fits(own@, other@, horizontal, c),
            None => forall|c: i32| lo <= c <= hi ==> !#[trigger] cut_fits(
                own@,
                other@,
                horizontal,
                c,
            ),
        },
{
    let mut candidates: Vec<i32> = Vec::new();
    let mut c: i32 = lo;
    while c <= hi
        invariant
            own@.len() > 0,
            other@.len() > 0,
            are_lines(own@),
            are_lines(other@),
            0 <= lo <= c,
            hi <= 46340,
            forall|i: int|
                0 <= i < candidates@.len() ==> lo <= #[trigger] candidates@[i] <= hi && cut_fits(
                    own@,
                    other@,
                    horizontal,
                    candidates@[i],
                ),
            candidates@.len() == 0 ==> forall|k: i32|
                lo <= k < c ==> !#[trigger] cut_fits(own@, other@, horizontal, k),
        decreases hi + 1 - c,
    {
        if is_cut(own, other, horizontal, c) {
            candidates.push(c);
        }
        c += 1;
    }
    if candidates.len() == 0 {
        return None;
    }
    let k: usize = rng::index_below(rng, candidates.len());
    Some(candidates[k])
}

/// Whether the cell is one of the door cells of the entry.
pub open spec fn door_cell(entry: Option<HouseEntrypoint>, x: int, z: int) -> bool {
    match entry {
        Some(ep) => ep.wall_x == x && ep.wall_z == z || (ep.wall2 matches Some(w) && w.0 == x && w.1
            == z),
        None => false,
    }
}

/// Whether an inner wall may be laid on the cell: in the house, but not in its doorways.
pub open spec fn takes_wall(house: House, x: int, z: int) -> bool {
    house.has(x, z) && !door_cell(house.entry, x, z) && !door_cell(house.entry2, x, z)
}

fn is_door_cell(entry: &Option<HouseEntrypoint>, x: i32, z: i32) -> (yes: bool)
    ensures
        yes == door_cell(*entry, x as int, z as int),
{
    match entry {
        Some(ep) => {
            if ep.wall_x == x && ep.wall_z == z {
                return true;
            }
            match ep.wall2 {
                Some(w) => w.0 == x && w.1 == z,
                None => false,
            }
        },
        None => false,
    }
}

/// A tile with one more slab; pillars, stations and void stay as they are.
pub open spec fn add_slab(tile: DraftTile, bit: u8) -> DraftTile {
    match tile {
        DraftTile::Open => DraftTile::Wall(bit),
        DraftTile::Wall(bits) => DraftTile::Wall(bits | bit),
        _ => tile,
    }
}

fn add_wall_bit(cells: &mut Cells, x: i32, z: i32, bit: u8)
    requires
        sound(*old(cells), old(cells)@.len() as int),
        in_grid(old(cells)@.len() as int, x as int, z as int),
        bit == 1 || bit == 8,
    ensures
        final(cells)@.len() == old(cells)@.len(),
        sound(*final(cells), final(cells)@.len() as int),
        forall|u: int, w: int| #[trigger]
            tile_at(*final(cells), u, w) == if u == x && w == z {
                add_slab(tile_at(*old(cells), u, w), bit)
            } else {
                tile_at(*old(cells), u, w)
            },
{
    match get_tile(cells, x, z) {
        DraftTile::Open => set_tile(cells, x, z, DraftTile::Wall(bit)),
        DraftTile::Wall(bits) => {
            assert(valid_mask(bits | bit)) by {
                assert(1 <= bits <= 15 && (bit == 1 || bit == 8) ==> 1 <= (bits | bit) <= 15)
                    by (bit_vector);
            }
            set_tile(cells, x, z, DraftTile::Wall(bits | bit));
        },
        _ => {},
    }
}

/// The grid with a slab of the line added to every cell of the house on it.
pub open spec fn line_stamped(
    before: Cells,
    after: Cells,
    house: House,
    line: int,
    horizontal: bool,
) -> bool {
    forall|x: int, z: int| #[trigger]
        tile_at(after, x, z) == if takes_wall(house, x, z) && (if horizontal {
            z == line
        } else {
            x == line
        }) {
            add_slab(tile_at(before, x, z), if horizontal { 1u8 } else { 8u8 })
        } else {
            tile_at(before, x, z)
        }
}

fn stamp_horizontal_inner_wall(cells: &mut Cells, house: &House, zw: i32)
    requires
        sound(*old(cells), old(cells)@.len() as int),
        house_fits(*house, old(cells)@.len() as int),
    ensures
        final(cells)@.len() == old(cells)@.len(),
        sound(*final(cells), final(cells)@.len() as int),
        line_stamped(*old(cells), *final(cells), *house, zw as int, true),
{
    let mut x: i32 = house.x0;
    while x <= house.x1
        invariant
            cells@.len() == old(cells)@.len(),
            sound(*cells, cells@.len() as int),
            house_fits(*house, cells@.len() as int),
            house.x0 <= x <= house.x1 + 1,
            forall|u: int, w: int| #[trigger]
                tile_at(*cells, u, w) == if takes_wall(*house, u, w) && w == zw && u < x {
                    add_slab(tile_at(*old(cells), u, w), 1u8)
                } else {
                    tile_at(*old(cells), u, w)
                },
        decreases house.x1 + 1 - x,
    {
        if house.contains(x, zw) && !is_door_cell(&house.entry, x, zw) && !is_door_cell(
            &house.entry2,
            x,
            zw,
        ) {
            proof {
                lemma_in_box(*house, cells@.len() as int, x as int, zw as int);
            }
            add_wall_bit(cells, x, zw, MASK_NORTH);
        }
        x += 1;
    }
    proof {
        assert forall|u: int, w: int| takes_wall(*house, u, w) implies u < x by {
            lemma_in_box(*house, cells@.len() as int, u, w);
        }
    }
}

fn stamp_vertical_inner_wall(cells: &mut Cells, house: &House, xw: i32)
    requires
        sound(*old(cells), old(cells)@.len() as int),
        house_fits(*house, old(cells)@.len() as int),
    ensures
        final(cells)@.len() == old(cells)@.len(),
        sound(*final(cells), final(cells)@.len() as int),
        line_stamped(*old(cells), *final(cells), *house, xw as int, false),
{
    let mut z: i32 = house.z0;
    while z <= house.z1
        invariant
            cells@.len() == old(cells)@.len(),
            sound(*cells, cells@.len() as int),
            house_fits(*house, cells@.len() as int),
            house.z0 <= z <= house.z1 + 1,
            forall|u: int, w: int| #[trigger]
                tile_at(*cells, u, w) == if takes_wall(*house, u, w) && u == xw && w < z {
                    add_slab(tile_at(*old(cells), u, w), 8u8)
                } else {
                    tile_at(*old(cells), u, w)
                },
        decreases house.z1 + 1 - z,
    {
        if house.contains(xw, z) && !is_door_cell(&house.entry, xw, z) && !is_door_cell(
            &house.entry2,
            xw,
            z,
        ) {
            proof {
                lemma_in_box(*house, cells@.len() as int, xw as int, z as int);
            }
            add_wall_bit(cells, xw, z, MASK_WEST);
        }
        z += 1;
    }
    proof {
        assert forall|u: int, w: int| takes_wall(*house, u, w) implies w < z by {
            lemma_in_box(*house, cells@.len() as int, u, w);
        }
    }
}

/// A tile with the slabs of the lines that run through its cell.
pub open spec fn walled(tile: DraftTile, north: bool, west: bool) -> DraftTile {
    let a = if north {
        add_slab(tile, 1)
    } else {
        tile
    };
    if west {
        add_slab(a, 8)
    } else {
        a
    }
}

/// The inner lines of a house: those between the outer ones.
pub open spec fn inner_of(cuts: Seq<i32>) -> Seq<i32> {
    cuts.subrange(1, cuts.len() - 1)
}

/// How many horizontal and vertical lines a footprint of this size may get.
pub open spec fn line_budget(area: int) -> (int, int) {
    let budget = area / 80;
    let h = (budget + 1) / 2;
    let v = budget / 2;
    (if h < 3 { h } else { 3 }, if v < 3 { v } else { 3 })
}

/// Whether the cut lines are what the step may roll for the house: the outer lines and, in
/// between, no more lines than budgeted, leaving rooms that fit.
pub open spec fn cuts_allowed(house: House, h: Seq<i32>, v: Seq<i32>) -> bool {
    let (h_max, v_max) = line_budget(house.footprint_area as int);
    &&& are_lines(h)
    &&& are_lines(v)
    &&& 2 <= h.len() <= h_max + 2
    &&& 2 <= v.len() <= v_max + 2
    &&& h[0] == house.z0
    &&& h.last() == house.z1 + 1
    &&& v[0] == house.x0
    &&& v.last() == house.x1 + 1
    &&& h.len() + v.len() > 4 ==> rooms_fit(h, v)
    &&& h.len() < h_max + 2 ==> no_cut_left(
        house.z0 + 1,
        house.z1 as int,
        h,
        seq![house.x0, (house.x1 + 1) as i32],
        true,
    )
    &&& v.len() < v_max + 2 ==> no_cut_left(house.x0 + 1, house.x1 as int, v, h, false)
}

/// Whether no further line between `lo` and `hi` fits beside `own`.
pub open spec fn no_cut_left(
    lo: int,
    hi: int,
    own: Seq<i32>,
    other: Seq<i32>,
    horizontal: bool,
) -> bool {
    forall|c: i32| lo <= c <= hi ==> !#[trigger] cut_fits(own, other, horizontal, c)
}

/// Whether the slabs of the inner lines were added to the cells of the house.
pub open spec fn walls_laid(
    before: Cells,
    after: Cells,
    house: House,
    h: Seq<i32>,
    v: Seq<i32>,
) -> bool {
    forall|x: int, z: int| #[trigger]
        tile_at(after, x, z) == walled(
            tile_at(before, x, z),
            takes_wall(house, x, z) && inner_of(h).contains(z as i32),
            takes_wall(house, x, z) && inner_of(v).contains(x as i32),
        )
}

proof fn lemma_inner_line(cuts: Seq<i32>, c: i32)
    requires
        are_lines(cuts),
        cuts.len() >= 2,
        cuts[0] < c < cuts.last(),
        forall|i: int| 0 <= i < cuts.len() ==> #[trigger] cuts[i] != c,
    ensures
        are_lines(with_line(cuts, c)),
        with_line(cuts, c).len() == cuts.len() + 1,
        with_line(cuts, c)[0] == cuts[0],
        with_line(cuts, c).last() == cuts.last(),
{
    assert(0 <= cuts[0] && cuts[cuts.len() - 1] <= 46340);
    lemma_with_line(cuts, c);
    lemma_lead(cuts, c);
    let k = lead(cuts, c);
    assert(k > 0) by {
        if k == 0 {
            assert(cuts[0] > c);
        }
    }
    assert(k < cuts.len()) by {
        if k == cuts.len() {
            assert(cuts[cuts.len() - 1] <= c);
        }
    }
}

/// Lays up to `max` random lines between the outer ones.
fn roll_cuts(
    rng: &mut StdRng,
    own: &mut Vec<i32>,
    other: &Vec<i32>,
    max: i32,
    horizontal: bool,
)
    requires
        old(own)@.len() == 2,
        other@.len() >= 2,
        are_lines(old(own)@),
        are_lines(other@),
        0 <= max,
        other@.len() > 2 ==> if horizontal {
            rooms_fit(old(own)@, other@)
        } else {
            rooms_fit(other@, old(own)@)
        },
    ensures
        are_lines(final(own)@),
        2 <= final(own)@.len() <= max + 2,
        final(own)@[0] == old(own)@[0],
        final(own)@.last() == old(own)@.last(),
        final(own)@.len() + other@.len() > 4 ==> if horizontal {
            rooms_fit(final(own)@, other@)
        } else {
            rooms_fit(other@, final(own)@)
        },
        final(own)@.len() < max + 2 ==> no_cut_left(
            old(own)@[0] + 1,
            old(own)@[1] - 1,
            final(own)@,
            other@,
            horizontal,
        ),
{
    let lo: i32 = own[0];
    let hi: i32 = own[1];
    let mut k: i32 = 0;
    while k < max
        invariant_except_break
            own@.len() == k + 2,
        invariant
            0 <= k <= max,
            lo == old(own)@[0],
            hi == old(own)@[1],
            0 <= lo < hi <= 46340,
            own@.len() >= 2,
            other@.len() >= 2,
            are_lines(own@),
            are_lines(other@),
            own@.len() <= max + 2,
            own@[0] == lo,
            own@.last() == hi,
            own@.len() + other@.len() > 4 ==> if horizontal {
                rooms_fit(own@, other@)
            } else {
                rooms_fit(other@, own@)
            },
        ensures
            own@.len() < max + 2 ==> no_cut_left(lo + 1, hi - 1, own@, other@, horizontal),
        decreases max - k,
    {
        match pick_cut(rng, lo + 1, hi - 1, own, other, horizontal) {
            Some(c) => {
                proof {
                    assert forall|i: int| 0 <= i < own@.len() implies #[trigger] own@[i] != c by {
                        assert(abs_int(c - own@[i]) >= 2);
                    }
                    lemma_inner_line(own@, c);
                }
                insert_sorted(own, c);
            },
            None => {
                break;
            },
        }
        k += 1;
    }
}

fn stamp_lines(
    cells: &mut Cells,
    house: &House,
    cuts: &Vec<i32>,
    horizontal: bool,
)
    requires
        sound(*old(cells), old(cells)@.len() as int),
        house_fits(*house, old(cells)@.len() as int),
        cuts@.len() >= 2,
        are_lines(cuts@),
    ensures
        final(cells)@.len() == old(cells)@.len(),
        sound(*final(cells), final(cells)@.len() as int),
        forall|x: int, z: int| #[trigger]
            tile_at(*final(cells), x, z) == walled(
                tile_at(*old(cells), x, z),
                horizontal && takes_wall(*house, x, z) && inner_of(cuts@).contains(z as i32),
                !horizontal && takes_wall(*house, x, z) && inner_of(cuts@).contains(x as i32),
            ),
{
    let mut i: usize = 1;
    assert(cuts@.subrange(1, 1) =~= seq![]);
    while i < cuts.len() - 1
        invariant
            cells@.len() == old(cells)@.len(),
            sound(*cells, cells@.len() as int),
            house_fits(*house, cells@.len() as int),
            cuts@.len() >= 2,
            are_lines(cuts@),
            1 <= i <= cuts@.len() - 1,
            forall|x: int, z: int| #[trigger]
                tile_at(*cells, x, z) == walled(
                    tile_at(*old(cells), x, z),
                    horizontal && takes_wall(*house, x, z) && cuts@.subrange(1, i as int).contains(
                        z as i32,
                    ),
                    !horizontal && takes_wall(*house, x, z) && cuts@.subrange(1, i as int).contains(
                        x as i32,
                    ),
                ),
        decreases cuts@.len() - i,
    {
        let line: i32 = cuts[i];
        let ghost before = *cells;
        if horizontal {
            stamp_horizontal_inner_wall(cells, house, line);
        } else {
            stamp_vertical_inner_wall(cells, house, line);
        }
        proof {
            let a = cuts@.subrange(1, i as int);
            let b = cuts@.subrange(1, i + 1);
            assert(b =~= a.push(line));
            assert(!a.contains(line)) by {
                if a.contains(line) {
                    let k = choose|k: int| 0 <= k < a.len() && a[k] == line;
                    assert(cuts@[k + 1] < cuts@[i as int]);
                }
            }
            assert forall|c: i32| #[trigger] b.contains(c) == (a.contains(c) || c == line) by {
                if a.contains(c) {
                    let k = choose|k: int| 0 <= k < a.len() && a[k] == c;
                    assert(b[k] == c);
                }
                if b.contains(c) {
                    let k = choose|k: int| 0 <= k < b.len() && b[k] == c;
                    if k < a.len() {
                        assert(a[k] == c);
                    }
                }
                assert(b[a.len() as int] == line);
            }
            assert forall|x: int, z: int| #[trigger]
                tile_at(*cells, x, z) == walled(
                    tile_at(*old(cells), x, z),
                    horizontal && takes_wall(*house, x, z) && b.contains(z as i32),
                    !horizontal && takes_wall(*house, x, z) && b.contains(x as i32),
                ) by {
                assert(tile_at(before, x, z) == tile_at(before, x, z));
                if takes_wall(*house, x, z) {
                    lemma_in_box(*house, cells@.len() as int, x, z);
                }
            }
        }
        i += 1;
    }
    assert(cuts@.subrange(1, i as int) =~= inner_of(cuts@));
}

/// Splits one house into rooms.
pub fn split_house_into_rooms(cells: &mut Cells, house: &House, rng: &mut StdRng)
    requires
        sound(*old(cells), old(cells)@.len() as int),
        house_fits(*house, old(cells)@.len() as int),
    ensures
        final(cells)@.len() == old(cells)@.len(),
        sound(*final(cells), final(cells)@.len() as int),
        exists|h: Seq<i32>, v: Seq<i32>| #[trigger]
            cuts_allowed(*house, h, v) && walls_laid(*old(cells), *final(cells), *house, h, v),
{
    let budget: i32 = house.footprint_area / AREA_PER_INNER_WALL;
    let h_even: i32 = (budget + 1) / 2;
    let v_even: i32 = budget / 2;
    let h_max: i32 = if h_even < MAX_INNER_WALL_CUTS_PER_AXIS {
        h_even
    } else {
        MAX_INNER_WALL_CUTS_PER_AXIS
    };
    let v_max: i32 = if v_even < MAX_INNER_WALL_CUTS_PER_AXIS {
        v_even
    } else {
        MAX_INNER_WALL_CUTS_PER_AXIS
    };
    // Walls live on lines *between* cell rows/columns. Outer walls are at
    // lines z0 / z1+1 (horizontal) and x0 / x1+1 (vertical).
    let mut h_cuts: Vec<i32> = Vec::new();
    h_cuts.push(house.z0);
    h_cuts.push(house.z1 + 1);
    let mut v_cuts: Vec<i32> = Vec::new();
    v_cuts.push(house.x0);
    v_cuts.push(house.x1 + 1);
    let ghost outer = v_cuts@;
    assert(outer =~= seq![house.x0, (house.x1 + 1) as i32]);
    roll_cuts(rng, &mut h_cuts, &v_cuts, h_max, true);
    roll_cuts(rng, &mut v_cuts, &h_cuts, v_max, false);
    assert(cuts_allowed(*house, h_cuts@, v_cuts@));
    stamp_lines(cells, house, &h_cuts, true);
    let ghost mid = *cells;
    stamp_lines(cells, house, &v_cuts, false);
    proof {
        assert forall|x: int, z: int| #[trigger]
            tile_at(*cells, x, z) == walled(
                tile_at(*old(cells), x, z),
                takes_wall(*house, x, z) && inner_of(h_cuts@).contains(z as i32),
                takes_wall(*house, x, z) && inner_of(v_cuts@).contains(x as i32),
            ) by {
            assert(tile_at(mid, x, z) == tile_at(mid, x, z));
        }
    }
}

/// Whether the states lead from `before` to `after` in `n` moves.
pub open spec fn leads(states: Seq<Cells>, before: Cells, after: Cells, n: int) -> bool {
    states.len() == n + 1 && states[0] == before && states[n] == after
}

/// Whether walls were laid in the first `n` houses, one after the other.
pub open spec fn all_walls_laid(before: Cells, after: Cells, houses: Seq<House>, n: int) -> bool {
    exists|states: Seq<Cells>| #[trigger]
        leads(states, before, after, n) && forall|i: int|
            0 <= i < n ==> one_house_walled(states[i], states[i + 1], #[trigger] houses[i])
}

/// Whether the house was split if it is large enough, and left alone otherwise.
pub open spec fn one_house_walled(before: Cells, after: Cells, house: House) -> bool {
    if house.footprint_area < 30 {
        crate::map::map_generator::step_door::same_tiles(before, after)
    } else {
        exists|h: Seq<i32>, v: Seq<i32>| #[trigger]
            cuts_allowed(house, h, v) && walls_laid(before, after, house, h, v)
    }
}

/// Whether the houses were split into rooms.
pub open spec fn houses_split(before: MapDraft, after: MapDraft) -> bool {
    &&& after == (MapDraft {
        cells: after.cells,
        rng: after.rng,
        ..before
    })
    &&& all_walls_laid(
        before.cells,
        after.cells,
        before.houses@,
        before.houses@.len() as int,
    )
}

impl MapDraft {
    pub fn step_split_houses_into_rooms(&mut self)
        requires
            old(self).wf(),
        ensures
            final(self).wf(),
            houses_split(*old(self), *final(self)),
    {
        let ghost mut states: Seq<Cells> = seq![self.cells];
        let mut idx: usize = 0;
        while idx < self.houses.len()
            invariant
                self.wf(),
                *self == (MapDraft { cells: self.cells, rng: self.rng, ..*old(self) }),
                idx <= self.houses@.len(),
                leads(states, old(self).cells, self.cells, idx as int),
                forall|i: int|
                    0 <= i < idx ==> one_house_walled(
                        states[i],
                        states[i + 1],
                        #[trigger] self.houses@[i],
                    ),
            decreases self.houses@.len() - idx,
        {
            let ghost mid = self.cells;
            assert(house_fits(self.houses@[idx as int], self.size as int));
            if self.houses[idx].footprint_area >= MIN_HOUSE_AREA_FOR_INNER_WALLS {
                split_house_into_rooms(&mut self.cells, &self.houses[idx], &mut self.rng);
            }
            assert(one_house_walled(mid, self.cells, self.houses@[idx as int]));
            proof {
                states = states.push(self.cells);
            }
            idx += 1;
        }
    }
}

} // verus!
