//! Detect `c*` corner pillars from a wall layout alone (no room / union metadata).
//!
//! 1. The tile before the start and after the end of a horizontal wall run (N/S slabs) is
//!    a pillar candidate.
//! 2. So is the tile before the start and after the end of a vertical wall run (E/W slabs).
//! 3. For each candidate, if there is a perpendicular wall of the other orientation nearby,
//!    place a pillar; variant comes from both wall directions.
use vstd::prelude::*;

use crate::flood::{flood, flood_step, flooded, TileField};
use crate::map::map_generator::grid::{in_grid, is_square, new_grid, put, read, value_at};
use crate::map::map_generator::step_carpet::earlier_cell;
use crate::map::search::{adjacent, Tile};
use crate::map::world_map::WallCorner;

verus! {

/// The bits of a slab on the north or the south edge.
const HORIZONTAL: u8 = 3;

/// The bits of a slab on the east or the west edge.
const VERTICAL: u8 = 12;

/// Per-cell wall mask (`None` = not a wall). Row-major: index `[z][x]`.
#[derive(Debug)]
pub struct WallField {
    pub size: i32,
    pub masks: Vec<Vec<Option<u8>>>,
}

impl WallField {
    pub closed spec fn wf(self) -> bool {
        0 <= self.size && is_square(self.masks, self.size as int)
    }

    /// The wall mask at (x, z); there are no walls outside the field.
    pub open spec fn mask(self, x: int, z: int) -> Option<u8> {
        if in_grid(self.size as int, x, z) {
            value_at(self.masks, x, z)
        } else {
            None
        }
    }

    pub fn new(size: i32) -> (field: Self)
        requires
            size >= 0,
        ensures
            field.wf(),
            field.size == size,
            forall|x: int, z: int| #[trigger] field.mask(x, z) is None,
    {
        WallField { size, masks: new_grid(size as usize, None) }
    }

    pub fn set_wall(&mut self, x: i32, z: i32, mask_bits: u8)
        requires
            old(self).wf(),
        ensures
            final(self).wf(),
            final(self).size == old(self).size,
            forall|u: int, w: int| #[trigger]
                final(self).mask(u, w) == if u == x && w == z && in_grid(
                    old(self).size as int,
                    u,
                    w,
                ) {
                    Some(mask_bits)
                } else {
                    old(self).mask(u, w)
                },
    {
        if Self::in_bounds(self.size, x, z) {
            put(&mut self.masks, x, z, Some(mask_bits));
        }
    }

    pub fn wall_mask(&self, x: i32, z: i32) -> (mask: Option<u8>)
        requires
            self.wf(),
        ensures
            mask == self.mask(x as int, z as int),
            !in_grid(self.size as int, x as int, z as int) ==> mask is None,
    {
        if !Self::in_bounds(self.size, x, z) {
            return None;
        }
        read(&self.masks, x, z)
    }

    pub fn is_wall(&self, x: i32, z: i32) -> (wall: bool)
        requires
            self.wf(),
        ensures
            wall == (self.mask(x as int, z as int) is Some),
    {
        self.wall_mask(x, z).is_some()
    }

    fn in_bounds(size: i32, x: i32, z: i32) -> (inside: bool)
        ensures
            inside == in_grid(size as int, x as int, z as int),
    {
        x >= 0 && z >= 0 && x < size && z < size
    }

    /// Whether (x, z) lies in the field and is no wall.
    pub open spec fn floor(self, x: int, z: int) -> bool {
        in_grid(self.size as int, x, z) && self.mask(x, z) is None
    }

    /// Whether a wall with a slab on its north or south edge stands at (x, z).
    pub open spec fn horizontal(self, x: int, z: int) -> bool {
        match self.mask(x, z) {
            Some(m) => m & 3 != 0,
            None => false,
        }
    }

    /// Whether a wall with a slab on its east or west edge stands at (x, z).
    pub open spec fn vertical(self, x: int, z: int) -> bool {
        match self.mask(x, z) {
            Some(m) => m & 12 != 0,
            None => false,
        }
    }

    fn horizontal_at(&self, x: i32, z: i32) -> (yes: bool)
        requires
            self.wf(),
        ensures
            yes == self.horizontal(x as int, z as int),
    {
        match self.wall_mask(x, z) {
            Some(mask) => is_horizontal_wall(mask),
            None => false,
        }
    }

    fn vertical_at(&self, x: i32, z: i32) -> (yes: bool)
        requires
            self.wf(),
        ensures
            yes == self.vertical(x as int, z as int),
    {
        match self.wall_mask(x, z) {
            Some(mask) => is_vertical_wall(mask),
            None => false,
        }
    }
}

fn is_horizontal_wall(mask: u8) -> (yes: bool)
    ensures
        yes == (mask & 3 != 0),
{
    mask & HORIZONTAL != 0
}

fn is_vertical_wall(mask: u8) -> (yes: bool)
    ensures
        yes == (mask & 12 != 0),
{
    mask & VERTICAL != 0
}

/// One interior floor cell that should become a [`WallCorner`] pillar.
#[derive(Debug, Clone, Copy, PartialEq, Eq, Structural)]
pub struct CornerPillarPlacement {
    pub x: i32,
    pub z: i32,
    pub corner: WallCorner,
}

#[derive(Debug, Clone, Copy, PartialEq, Eq, Structural)]
pub enum Dir {
    North,
    South,
    East,
    West,
}

impl Dir {
    /// Offset to the neighbour in this direction.
    pub open spec fn delta(self) -> (int, int) {
        match self {
            Dir::North => (0, -1),
            Dir::South => (0, 1),
            Dir::East => (1, 0),
            Dir::West => (-1, 0),
        }
    }

    /// The directions in the order in which neighbours are looked at.
    pub open spec fn nth(k: int) -> Dir {
        if k == 0 {
            Dir::North
        } else if k == 1 {
            Dir::South
        } else if k == 2 {
            Dir::West
        } else {
            Dir::East
        }
    }

    fn at(k: u8) -> (dir: Dir)
        requires
            k < 4,
        ensures
            dir == Dir::nth(k as int),
    {
        if k == 0 {
            Dir::North
        } else if k == 1 {
            Dir::South
        } else if k == 2 {
            Dir::West
        } else {
            Dir::East
        }
    }

    fn offset(self) -> (delta: (i32, i32))
        ensures
            delta.0 == self.delta().0,
            delta.1 == self.delta().1,
    {
        match self {
            Dir::North => (0, -1),
            Dir::South => (0, 1),
            Dir::East => (1, 0),
            Dir::West => (-1, 0),
        }
    }
}

/// The corner between two perpendicular directions, seen from the pillar's cell.
pub open spec fn corner_between(a: Dir, b: Dir) -> Option<WallCorner> {
    match (a, b) {
        (Dir::North, Dir::West) => Some(WallCorner::Sw),
        (Dir::West, Dir::North) => Some(WallCorner::Sw),
        (Dir::North, Dir::East) => Some(WallCorner::Se),
        (Dir::East, Dir::North) => Some(WallCorner::Se),
        (Dir::South, Dir::West) => Some(WallCorner::Nw),
        (Dir::West, Dir::South) => Some(WallCorner::Nw),
        (Dir::South, Dir::East) => Some(WallCorner::Ne),
        (Dir::East, Dir::South) => Some(WallCorner::Ne),
        _ => None,
    }
}

/// Pillar sits in the cell corner where the two slab gaps meet (world XZ).
pub fn corner_from_perpendicular_dirs(a: Dir, b: Dir) -> (corner: Option<WallCorner>)
    ensures
        corner == corner_between(a, b),
{
    match (a, b) {
        (Dir::North, Dir::West) | (Dir::West, Dir::North) => Some(WallCorner::Sw),
        (Dir::North, Dir::East) | (Dir::East, Dir::North) => Some(WallCorner::Se),
        (Dir::South, Dir::West) | (Dir::West, Dir::South) => Some(WallCorner::Nw),
        (Dir::South, Dir::East) | (Dir::East, Dir::South) => Some(WallCorner::Ne),
        _ => None,
    }
}

/// Offset to the tile diagonally across the notch between two perpendicular walls.
fn notch_diagonal_offset(h: Dir, v: Dir) -> (delta: Option<(i32, i32)>)
    ensures
        delta is Some == corner_between(h, v) is Some,
        delta matches Some(d) ==> d.0 == h.delta().0 + v.delta().0 && d.1 == h.delta().1
            + v.delta().1,
{
    match (h, v) {
        (Dir::North, Dir::West) | (Dir::West, Dir::North) => Some((-1, -1)),
        (Dir::North, Dir::East) | (Dir::East, Dir::North) => Some((1, -1)),
        (Dir::South, Dir::West) | (Dir::West, Dir::South) => Some((-1, 1)),
        (Dir::South, Dir::East) | (Dir::East, Dir::South) => Some((1, 1)),
        _ => None,
    }
}

/// The steps of a walk over floor that does not cross walls.
pub open spec fn outdoor_step(field: WallField) -> spec_fn(Tile, Tile) -> bool {
    |a: Tile, b: Tile| adjacent(a, b) && field.floor(b.0 as int, b.1 as int)
}

/// Whether the tile is floor on the edge of the field.
pub open spec fn border_floor(field: WallField, t: Tile) -> bool {
    &&& field.floor(t.0 as int, t.1 as int)
    &&& t.0 == 0 || t.1 == 0 || t.0 == field.size - 1 || t.1 == field.size - 1
}

/// Whether the floor can be walked to from the edge of the field.
pub open spec fn is_exterior(field: WallField, t: Tile) -> bool {
    exists|b: Tile| #[trigger]
        border_floor(field, b) && crate::reach::reaches(outdoor_step(field), b, t)
}

impl TileField for WallField {
    closed spec fn valid(&self) -> bool {
        self.wf()
    }

    closed spec fn spreads(&self, a: Tile, b: Tile) -> bool {
        adjacent(a, b) && self.floor(b.0 as int, b.1 as int)
    }

    closed spec fn denies(&self, a: Tile, b: Tile) -> bool {
        !self.spreads(a, b)
    }

    proof fn spreads_to_neighbours(&self) {
    }

    fn can_spread(&self, a: (i32, i32), b: (i32, i32)) -> (yes: bool) {
        Self::in_bounds(self.size, b.0, b.1) && !self.is_wall(b.0, b.1)
    }
}

fn push_floor(field: &WallField, starts: &mut Vec<(i32, i32)>, x: i32, z: i32)
    requires
        field.wf(),
    ensures
        final(starts)@ == if field.floor(x as int, z as int) {
            old(starts)@.push((x, z))
        } else {
            old(starts)@
        },
{
    if WallField::in_bounds(field.size, x, z) && !field.is_wall(x, z) {
        starts.push((x, z));
    }
}

/// The floor on the edge of the field.
fn border_starts(field: &WallField) -> (starts: Vec<(i32, i32)>)
    requires
        field.wf(),
    ensures
        forall|t: Tile| #[trigger] starts@.contains(t) <==> border_floor(*field, t),
{
    let last: i32 = field.size - 1;
    let mut starts: Vec<(i32, i32)> = Vec::new();
    let mut k: i32 = 0;
    while k < field.size
        invariant
            field.wf(),
            last == field.size - 1,
            0 <= k <= field.size,
            forall|t: Tile| #[trigger]
                starts@.contains(t) <==> border_floor(*field, t) && ((t.1 == 0 || t.1 == last)
                    && t.0 < k || (t.0 == 0 || t.0 == last) && t.1 < k),
        decreases field.size - k,
    {
        let ghost s0 = starts@;
        push_floor(field, &mut starts, k, 0);
        let ghost s1 = starts@;
        push_floor(field, &mut starts, k, last);
        let ghost s2 = starts@;
        push_floor(field, &mut starts, 0, k);
        let ghost s3 = starts@;
        push_floor(field, &mut starts, last, k);
        proof {
            lemma_maybe_push(s0, s1, (k, 0), field.floor(k as int, 0));
            lemma_maybe_push(s1, s2, (k, last), field.floor(k as int, last as int));
            lemma_maybe_push(s2, s3, (0, k), field.floor(0, k as int));
            lemma_maybe_push(s3, starts@, (last, k), field.floor(last as int, k as int));
        }
        k += 1;
    }
    starts
}

proof fn lemma_maybe_push(before: Seq<Tile>, after: Seq<Tile>, t: Tile, pushed: bool)
    requires
        after == (if pushed {
            before.push(t)
        } else {
            before
        }),
    ensures
        forall|u: Tile| #[trigger] after.contains(u) <==> before.contains(u) || pushed && u == t,
{
    if pushed {
        assert(after[before.len() as int] == t);
        assert forall|u: Tile| #[trigger] after.contains(u) <==> before.contains(u) || u == t by {
            if before.contains(u) {
                let i = choose|i: int| 0 <= i < before.len() && before[i] == u;
                assert(after[i] == u);
            }
            if after.contains(u) {
                let i = choose|i: int| 0 <= i < after.len() && after[i] == u;
                if i < before.len() {
                    assert(before[i] == u);
                }
            }
        }
    }
}

/// Marks the floor that can be walked to from the edge of the field.
fn exterior_reachable(field: &WallField) -> (exterior: Vec<Vec<bool>>)
    requires
        field.wf(),
    ensures
        is_square(exterior, field.size as int),
        forall|x: int, z: int|
            in_grid(field.size as int, x, z) ==> #[trigger] value_at(exterior, x, z)
                == is_exterior(*field, (x as i32, z as i32)),
{
    let starts = border_starts(field);
    let order = flood(field, &starts);
    let ghost step = outdoor_step(*field);
    let mut exterior = new_grid(field.size as usize, false);
    proof {
        assert(flood_step(*field) =~= step);
        assert forall|t: Tile| #[trigger] order@.contains(t) <==> is_exterior(*field, t) by {
            if flooded(step, starts@, t) {
                let i = choose|i: int|
                    0 <= i < starts@.len() && crate::reach::reaches(step, #[trigger] starts@[i], t);
                assert(starts@.contains(starts@[i]));
                assert(border_floor(*field, starts@[i]));
            }
            if is_exterior(*field, t) {
                let b = choose|b: Tile| #[trigger]
                    border_floor(*field, b) && crate::reach::reaches(step, b, t);
                assert(starts@.contains(b));
                let i = choose|i: int| 0 <= i < starts@.len() && starts@[i] == b;
                assert(crate::reach::reaches(step, starts@[i], t));
            }
        }
        lemma_exterior_is_floor(*field);
    }
    let mut i: usize = 0;
    while i < order.len()
        invariant
            field.wf(),
            is_square(exterior, field.size as int),
            i <= order@.len(),
            forall|t: Tile| #[trigger] order@.contains(t) <==> is_exterior(*field, t),
            forall|t: Tile| #[trigger]
                is_exterior(*field, t) ==> field.floor(t.0 as int, t.1 as int),
            forall|x: int, z: int|
                in_grid(field.size as int, x, z) ==> #[trigger] value_at(exterior, x, z)
                    == order@.take(i as int).contains((x as i32, z as i32)),
        decreases order@.len() - i,
    {
        let (x, z) = order[i];
        assert(order@.contains(order@[i as int]));
        assert(is_exterior(*field, (x, z)));
        let ghost before = exterior;
        put(&mut exterior, x, z, true);
        proof {
            let a = order@.take(i as int);
            let b = order@.take(i + 1);
            assert(b =~= a.push((x, z)));
            lemma_maybe_push(a, b, (x, z), true);
            assert forall|u: int, w: int|
                in_grid(field.size as int, u, w) implies #[trigger] value_at(exterior, u, w)
                == b.contains((u as i32, w as i32)) by {
                assert(value_at(before, u, w) == a.contains((u as i32, w as i32)));
            }
        }
        i += 1;
    }
    assert(order@.take(i as int) =~= order@);
    exterior
}

proof fn lemma_exterior_is_floor(field: WallField)
    ensures
        forall|t: Tile| #[trigger]
            is_exterior(field, t) ==> field.floor(t.0 as int, t.1 as int),
{
    let step = outdoor_step(field);
    assert forall|t: Tile| #[trigger] is_exterior(field, t) implies field.floor(
        t.0 as int,
        t.1 as int,
    ) by {
        let b = choose|b: Tile| #[trigger]
            border_floor(field, b) && crate::reach::reaches(step, b, t);
        let inside = |p: Tile| field.floor(p.0 as int, p.1 as int);
        crate::reach::lemma_closed_set_holds_reachable(step, inside, b, t);
    }
}

/// Whether the floor is the tile before or after a wall run.
pub open spec fn at_run_end(field: WallField, x: int, z: int) -> bool {
    field.horizontal(x - 1, z) || field.horizontal(x + 1, z) || field.vertical(x, z - 1)
        || field.vertical(x, z + 1)
}

fn is_run_end(field: &WallField, x: i32, z: i32) -> (yes: bool)
    requires
        field.wf(),
        in_grid(field.size as int, x as int, z as int),
    ensures
        yes == at_run_end(*field, x as int, z as int),
{
    field.horizontal_at(x - 1, z) || field.horizontal_at(x + 1, z) || field.vertical_at(x, z - 1)
        || field.vertical_at(x, z + 1)
}

/// Whether a horizontal wall stands in direction `h` and a vertical one in the
/// perpendicular direction `v`.
pub open spec fn elbow(field: WallField, x: int, z: int, h: Dir, v: Dir) -> bool {
    &&& field.horizontal(x + h.delta().0, z + h.delta().1)
    &&& field.vertical(x + v.delta().0, z + v.delta().1)
    &&& corner_between(h, v) is Some
}

/// The corner of the first elbow at (x, z), from pair `k` of directions on.
pub open spec fn corner_from(field: WallField, x: int, z: int, k: int) -> Option<WallCorner>
    decreases 16 - k,
{
    if k >= 16 {
        None
    } else if elbow(field, x, z, Dir::nth(k / 4), Dir::nth(k % 4)) {
        corner_between(Dir::nth(k / 4), Dir::nth(k % 4))
    } else {
        corner_from(field, x, z, k + 1)
    }
}

fn has_elbow(field: &WallField, x: i32, z: i32, h: Dir, v: Dir) -> (yes: bool)
    requires
        field.wf(),
        in_grid(field.size as int, x as int, z as int),
    ensures
        yes == elbow(*field, x as int, z as int, h, v),
{
    let (hx, hz) = h.offset();
    let (vx, vz) = v.offset();
    field.horizontal_at(x + hx, z + hz) && field.vertical_at(x + vx, z + vz)
        && corner_from_perpendicular_dirs(h, v).is_some()
}

fn pillar_corner_at(field: &WallField, x: i32, z: i32) -> (corner: Option<WallCorner>)
    requires
        field.wf(),
        in_grid(field.size as int, x as int, z as int),
    ensures
        corner == corner_from(*field, x as int, z as int, 0),
{
    let mut k: u8 = 0;
    while k < 16
        invariant
            field.wf(),
            in_grid(field.size as int, x as int, z as int),
            k <= 16,
            corner_from(*field, x as int, z as int, 0) == corner_from(
                *field,
                x as int,
                z as int,
                k as int,
            ),
        decreases 16 - k,
    {
        let h = Dir::at(k / 4);
        let v = Dir::at(k % 4);
        if has_elbow(field, x, z, h, v) {
            return corner_from_perpendicular_dirs(h, v);
        }
        k += 1;
    }
    None
}

/// Whether (x, z) is floor that cannot be walked to from the edge of the field.
pub open spec fn interior(field: WallField, x: int, z: int) -> bool {
    field.floor(x, z) && !is_exterior(field, (x as i32, z as i32))
}

/// Whether two perpendicular walls meet at (x, z) with interior floor across the notch.
pub open spec fn concave(field: WallField, x: int, z: int) -> bool {
    exists|h: Dir, v: Dir| #[trigger]
        elbow(field, x, z, h, v) && interior(
            field,
            x + h.delta().0 + v.delta().0,
            z + h.delta().1 + v.delta().1,
        )
}

fn interior_floor(field: &WallField, exterior: &Vec<Vec<bool>>, x: i32, z: i32) -> (yes: bool)
    requires
        field.wf(),
        is_square(*exterior, field.size as int),
        forall|x: int, z: int|
            in_grid(field.size as int, x, z) ==> #[trigger] value_at(*exterior, x, z)
                == is_exterior(*field, (x as i32, z as i32)),
    ensures
        yes == interior(*field, x as int, z as int),
{
    WallField::in_bounds(field.size, x, z) && !field.is_wall(x, z) && !read(exterior, x, z)
}

fn is_concave_elbow_floor(field: &WallField, exterior: &Vec<Vec<bool>>, x: i32, z: i32) -> (yes:
    bool)
    requires
        field.wf(),
        in_grid(field.size as int, x as int, z as int),
        is_square(*exterior, field.size as int),
        forall|x: int, z: int|
            in_grid(field.size as int, x, z) ==> #[trigger] value_at(*exterior, x, z)
                == is_exterior(*field, (x as i32, z as i32)),
    ensures
        yes == concave(*field, x as int, z as int),
{
    let mut k: u8 = 0;
    while k < 16
        invariant
            field.wf(),
            in_grid(field.size as int, x as int, z as int),
            is_square(*exterior, field.size as int),
            forall|x: int, z: int|
                in_grid(field.size as int, x, z) ==> #[trigger] value_at(*exterior, x, z)
                    == is_exterior(*field, (x as i32, z as i32)),
            k <= 16,
            forall|j: int|
                0 <= j < k ==> !(elbow(
                    *field,
                    x as int,
                    z as int,
                    #[trigger] Dir::nth(j / 4),
                    #[trigger] Dir::nth(j % 4),
                ) && interior(
                    *field,
                    x + Dir::nth(j / 4).delta().0 + Dir::nth(j % 4).delta().0,
                    z + Dir::nth(j / 4).delta().1 + Dir::nth(j % 4).delta().1,
                )),
        decreases 16 - k,
    {
        let h = Dir::at(k / 4);
        let v = Dir::at(k % 4);
        if has_elbow(field, x, z, h, v) {
            if let Some((dx, dz)) = notch_diagonal_offset(h, v) {
                if interior_floor(field, exterior, x + dx, z + dz) {
                    return true;
                }
            }
        }
        k += 1;
    }
    proof {
        if concave(*field, x as int, z as int) {
            let (h, v) = choose|h: Dir, v: Dir| #[trigger]
                elbow(*field, x as int, z as int, h, v) && interior(
                    *field,
                    x + h.delta().0 + v.delta().0,
                    z + h.delta().1 + v.delta().1,
                );
            let a = dir_rank(h);
            let b = dir_rank(v);
            let j = a * 4 + b;
            assert(j / 4 == a && j % 4 == b);
            assert(Dir::nth(j / 4) == h && Dir::nth(j % 4) == v);
        }
    }
    false
}

spec fn dir_rank(d: Dir) -> int {
    match d {
        Dir::North => 0,
        Dir::South => 1,
        Dir::West => 2,
        Dir::East => 3,
    }
}

/// The pillar that belongs at (x, z), if any: on interior floor beside the end of a wall run
/// or in a concave corner, in the corner of the first elbow of walls around it.
pub open spec fn pillar_at(field: WallField, x: int, z: int) -> Option<WallCorner> {
    if interior(field, x, z) && (at_run_end(field, x, z) || concave(field, x, z)) {
        corner_from(field, x, z, 0)
    } else {
        None
    }
}

/// Whether one of the placements is at (x, z).
pub open spec fn placed(pillars: Seq<CornerPillarPlacement>, x: int, z: int) -> bool {
    exists|i: int| 0 <= i < pillars.len() && (#[trigger] pillars[i]).x == x && pillars[i].z == z
}

/// Whether the placements are just the pillars of the field, no cell twice.
pub open spec fn are_pillars(field: WallField, pillars: Seq<CornerPillarPlacement>) -> bool {
    &&& forall|i: int|
        0 <= i < pillars.len() ==> pillar_at(
            field,
            (#[trigger] pillars[i]).x as int,
            pillars[i].z as int,
        ) == Some(pillars[i].corner)
    &&& forall|x: int, z: int| #[trigger] placed(pillars, x, z) <==> pillar_at(field, x, z) is Some
    &&& forall|i: int, j: int|
        0 <= i < j < pillars.len() ==> !((#[trigger] pillars[i]).x == (#[trigger] pillars[j]).x
            && pillars[i].z == pillars[j].z)
}

/// All concave inner-corner pillar placements for this wall field.
pub fn detect_corner_pillars(field: &WallField) -> (pillars: Vec<CornerPillarPlacement>)
    requires
        field.wf(),
    ensures
        are_pillars(*field, pillars@),
{
    let exterior = exterior_reachable(field);
    let mut out: Vec<CornerPillarPlacement> = Vec::new();
    let mut z: i32 = 0;
    while z < field.size
        invariant
            field.wf(),
            0 <= z <= field.size,
            is_square(exterior, field.size as int),
            forall|x: int, z: int|
                in_grid(field.size as int, x, z) ==> #[trigger] value_at(exterior, x, z)
                    == is_exterior(*field, (x as i32, z as i32)),
            pillars_before(*field, out@, 0, z as int),
        decreases field.size - z,
    {
        let mut x: i32 = 0;
        while x < field.size
            invariant
                field.wf(),
                0 <= z < field.size,
                0 <= x <= field.size,
                is_square(exterior, field.size as int),
                forall|x: int, z: int|
                    in_grid(field.size as int, x, z) ==> #[trigger] value_at(exterior, x, z)
                        == is_exterior(*field, (x as i32, z as i32)),
                pillars_before(*field, out@, x as int, z as int),
            decreases field.size - x,
        {
            let ghost before = out@;
            if interior_floor(field, &exterior, x, z) && (is_run_end(field, x, z)
                || is_concave_elbow_floor(field, &exterior, x, z)) {
                if let Some(corner) = pillar_corner_at(field, x, z) {
                    out.push(CornerPillarPlacement { x, z, corner });
                }
            }
            proof {
                lemma_next_pillar(*field, before, out@, x, z);
            }
            x += 1;
        }
        proof {
            lemma_pillar_row(*field, out@, z as int);
        }
        z += 1;
    }
    proof {
        assert forall|x: int, z: int| #[trigger] placed(out@, x, z) <==> pillar_at(*field, x, z) is Some by {
            if pillar_at(*field, x, z) is Some {
                assert(in_grid(field.size as int, x, z));
            }
        }
    }
    out
}

/// The pillars among the cells that are read before (x, z).
spec fn pillars_before(field: WallField, pillars: Seq<CornerPillarPlacement>, x: int, z: int) -> bool {
    &&& forall|i: int|
        0 <= i < pillars.len() ==> pillar_at(
            field,
            (#[trigger] pillars[i]).x as int,
            pillars[i].z as int,
        ) == Some(pillars[i].corner) && earlier_cell(
            pillars[i].x as int,
            pillars[i].z as int,
            x,
            z,
        )
    &&& forall|u: int, w: int| #[trigger]
        placed(pillars, u, w) <==> pillar_at(field, u, w) is Some && earlier_cell(u, w, x, z)
    &&& forall|i: int, j: int|
        0 <= i < j < pillars.len() ==> !((#[trigger] pillars[i]).x == (#[trigger] pillars[j]).x
            && pillars[i].z == pillars[j].z)
}

proof fn lemma_next_pillar(
    field: WallField,
    before: Seq<CornerPillarPlacement>,
    after: Seq<CornerPillarPlacement>,
    x: i32,
    z: i32,
)
    requires
        pillars_before(field, before, x as int, z as int),
        match pillar_at(field, x as int, z as int) {
            Some(corner) => after == before.push(CornerPillarPlacement { x, z, corner }),
            None => after == before,
        },
    ensures
        pillars_before(field, after, x + 1, z as int),
{
    assert forall|u: int, w: int| #[trigger]
        placed(after, u, w) <==> pillar_at(field, u, w) is Some && earlier_cell(
            u,
            w,
            x + 1,
            z as int,
        ) by {
        assert(placed(before, u, w) <==> pillar_at(field, u, w) is Some && earlier_cell(
            u,
            w,
            x as int,
            z as int,
        ));
        if placed(before, u, w) {
            let i = choose|i: int|
                0 <= i < before.len() && (#[trigger] before[i]).x == u && before[i].z == w;
            assert(after[i].x == u && after[i].z == w);
        }
        if placed(after, u, w) {
            let i = choose|i: int|
                0 <= i < after.len() && (#[trigger] after[i]).x == u && after[i].z == w;
            if i < before.len() {
                assert(before[i].x == u && before[i].z == w);
            }
        }
        if u == x && w == z && pillar_at(field, u, w) is Some {
            assert(after[before.len() as int].x == u && after[before.len() as int].z == w);
        }
    }
    assert forall|i: int, j: int| 0 <= i < j < after.len() implies !((#[trigger] after[i]).x
        == (#[trigger] after[j]).x && after[i].z == after[j].z) by {
        if j < before.len() {
            assert(!(before[i].x == before[j].x && before[i].z == before[j].z));
        } else {
            assert(earlier_cell(before[i].x as int, before[i].z as int, x as int, z as int));
        }
    }
}

proof fn lemma_pillar_row(field: WallField, pillars: Seq<CornerPillarPlacement>, z: int)
    requires
        pillars_before(field, pillars, field.size as int, z),
    ensures
        pillars_before(field, pillars, 0, z + 1),
{
    assert forall|u: int, w: int| #[trigger]
        placed(pillars, u, w) <==> pillar_at(field, u, w) is Some && earlier_cell(
            u,
            w,
            0,
            z + 1,
        ) by {
        if pillar_at(field, u, w) is Some {
            assert(in_grid(field.size as int, u, w));
        }
    }
}

} // verus!
