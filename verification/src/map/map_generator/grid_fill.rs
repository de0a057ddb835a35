//! Grid fill utilities — flood-fill region size (paint-bucket area) and box counts.
use vstd::prelude::*;

use crate::flood::{flood, flood_step, flooded, lists_flooded, TileField};
use crate::map::search::{adjacent, Tile};
use crate::reach::{
    lemma_closed_set_holds_reachable, lemma_reaches_self, lemma_reaches_step,
    lemma_reaches_transitive, lemma_reaches_wider, reaches,
};

verus! {

/// Whether the test answers yes for (x, z).
pub open spec fn says<F: Fn(i32, i32) -> bool>(f: F, x: i32, z: i32) -> bool {
    call_ensures(f, (x, z), true)
}

/// Whether the test never gives two answers.
pub open spec fn steady<F: Fn(i32, i32) -> bool>(f: F) -> bool {
    forall|x: i32, z: i32|
        !(call_ensures(f, (x, z), true) && #[trigger] call_ensures(f, (x, z), false))
}

/// Whether the cell takes part in a fill.
pub open spec fn fillable<B: Fn(i32, i32) -> bool, C: Fn(i32, i32) -> bool>(
    in_bounds: B,
    can_fill: C,
    t: Tile,
) -> bool {
    says(in_bounds, t.0, t.1) && says(can_fill, t.0, t.1)
}

/// Whether one of the tests answers no for the cell.
pub open spec fn left_out<B: Fn(i32, i32) -> bool, C: Fn(i32, i32) -> bool>(
    in_bounds: B,
    can_fill: C,
    t: Tile,
) -> bool {
    call_ensures(in_bounds, t, false) || call_ensures(can_fill, t, false)
}

/// The cells that take part in a fill.
pub open spec fn fill_of<B: Fn(i32, i32) -> bool, C: Fn(i32, i32) -> bool>(
    in_bounds: B,
    can_fill: C,
) -> spec_fn(Tile) -> bool {
    |t: Tile| fillable(in_bounds, can_fill, t)
}

/// The cells for which both predicates hold.
pub open spec fn both(
    inside: spec_fn(int, int) -> bool,
    fill: spec_fn(int, int) -> bool,
) -> spec_fn(Tile) -> bool {
    |t: Tile| inside(t.0 as int, t.1 as int) && fill(t.0 as int, t.1 as int)
}

/// The steps inside a region: to a neighbour that belongs to it.
pub open spec fn region_step(belongs: spec_fn(Tile) -> bool) -> spec_fn(Tile, Tile) -> bool {
    |a: Tile, b: Tile| adjacent(a, b) && belongs(b)
}

/// Whether `area` is the number of cells that are joined to `start` by steps through cells
/// that belong, each counted once; there are none if `start` does not belong.
pub open spec fn counts_region(belongs: spec_fn(Tile) -> bool, start: Tile, area: int) -> bool {
    if belongs(start) {
        exists|order: Seq<Tile>| #[trigger]
            lists_flooded(region_step(belongs), seq![start], order) && area == order.len()
    } else {
        area == 0
    }
}

struct FillField<'a, B: Fn(i32, i32) -> bool, C: Fn(i32, i32) -> bool> {
    in_bounds: &'a B,
    can_fill: &'a C,
}

impl<'a, B: Fn(i32, i32) -> bool, C: Fn(i32, i32) -> bool> FillField<'a, B, C> {
    fn takes_part(&self, x: i32, z: i32) -> (yes: bool)
        requires
            self.valid(),
        ensures
            yes == fillable(*self.in_bounds, *self.can_fill, (x, z)),
            yes || left_out(*self.in_bounds, *self.can_fill, (x, z)),
    {
        (self.in_bounds)(x, z) && (self.can_fill)(x, z)
    }
}

impl<'a, B: Fn(i32, i32) -> bool, C: Fn(i32, i32) -> bool> TileField for FillField<'a, B, C> {
    closed spec fn valid(&self) -> bool {
        &&& forall|x: i32, z: i32| call_requires(*self.in_bounds, (x, z))
        &&& forall|x: i32, z: i32|
            says(*self.in_bounds, x, z) ==> #[trigger] call_requires(*self.can_fill, (x, z))
        &&& steady(*self.in_bounds)
        &&& steady(*self.can_fill)
    }

    closed spec fn spreads(&self, a: Tile, b: Tile) -> bool {
        adjacent(a, b) && fillable(*self.in_bounds, *self.can_fill, b)
    }

    closed spec fn denies(&self, a: Tile, b: Tile) -> bool {
        left_out(*self.in_bounds, *self.can_fill, b)
    }

    proof fn spreads_to_neighbours(&self) {
    }

    fn can_spread(&self, a: (i32, i32), b: (i32, i32)) -> (yes: bool) {
        self.takes_part(b.0, b.1)
    }
}

/// 4-connected region size from `start`, counting only cells where `can_fill` is true.
///
/// Like a fill tool's affected area: returns `0` if `start` is not fillable.
pub fn flood_fill_area<B: Fn(i32, i32) -> bool, C: Fn(i32, i32) -> bool>(
    in_bounds: B,
    can_fill: C,
    start: (i32, i32),
) -> (area: i32)
    requires
        forall|x: i32, z: i32| call_requires(in_bounds, (x, z)),
        forall|x: i32, z: i32|
            says(in_bounds, x, z) ==> #[trigger] call_requires(can_fill, (x, z)),
        steady(in_bounds),
        steady(can_fill),
        forall|order: Seq<Tile>|
            lists_flooded(region_step(fill_of(in_bounds, can_fill)), seq![start], order)
                ==> order.len() <= i32::MAX,
    ensures
        counts_region(fill_of(in_bounds, can_fill), start, area as int),
        forall|inside: spec_fn(int, int) -> bool, fill: spec_fn(int, int) -> bool|
            #![trigger follows(in_bounds, inside), follows(can_fill, fill)]
            follows(in_bounds, inside) && follows(can_fill, fill) ==> counts_region(
                both(inside, fill),
                start,
                area as int,
            ),
{
    let field = FillField { in_bounds: &in_bounds, can_fill: &can_fill };
    if !field.takes_part(start.0, start.1) {
        assert(left_out(in_bounds, can_fill, start));
        return 0;
    }
    let mut starts: Vec<(i32, i32)> = Vec::new();
    starts.push(start);
    let order = flood(&field, &starts);
    proof {
        assert(starts@ =~= seq![start]);
        assert(flood_step(field) =~= region_step(fill_of(in_bounds, can_fill)));
        assert forall|inside: spec_fn(int, int) -> bool, fill: spec_fn(int, int) -> bool|
            #![trigger follows(in_bounds, inside), follows(can_fill, fill)]
            follows(in_bounds, inside) && follows(can_fill, fill) implies counts_region(
            both(inside, fill),
            start,
            order@.len() as int,
        ) by {
            assert forall|a: Tile, b: Tile|
                order@.contains(a) && #[trigger] adjacent(a, b) && both(inside, fill)(
                    b,
                ) implies order@.contains(b) by {
                assert(order@.contains(b) || left_out(in_bounds, can_fill, b));
            }
            lemma_same_region(
                fill_of(in_bounds, can_fill),
                both(inside, fill),
                start,
                order@,
            );
        }
    }
    order.len() as i32
}

/// A region of cells for which one predicate holds is a region for a wider one if it has no
/// neighbour for which that holds.
proof fn lemma_same_region(
    narrow: spec_fn(Tile) -> bool,
    wide: spec_fn(Tile) -> bool,
    start: Tile,
    order: Seq<Tile>,
)
    requires
        forall|t: Tile| #[trigger] narrow(t) ==> wide(t),
        lists_flooded(region_step(narrow), seq![start], order),
        forall|a: Tile, b: Tile|
            order.contains(a) && #[trigger] adjacent(a, b) && wide(b) ==> order.contains(b),
    ensures
        lists_flooded(region_step(wide), seq![start], order),
{
    let starts = seq![start];
    let inner = region_step(narrow);
    let outer = region_step(wide);
    assert forall|t: Tile| #[trigger] order.contains(t) <==> flooded(outer, starts, t) by {
        if order.contains(t) {
            assert(flooded(inner, starts, t));
            lemma_reaches_wider(inner, outer, start, t);
            assert(reaches(outer, starts[0], t));
        }
        if flooded(outer, starts, t) {
            assert(reaches(outer, start, t));
            lemma_reaches_self(inner, start);
            assert(reaches(inner, starts[0], start));
            let held = |u: Tile| order.contains(u);
            assert(held(start));
            assert forall|p: Tile, q: Tile| held(p) && #[trigger] outer(p, q) implies held(q) by {
                assert(adjacent(p, q));
            }
            lemma_closed_set_holds_reachable(outer, held, start, t);
        }
    }
}

/// Every cell of a region counts the same area.
pub proof fn every_start_counts_the_region(
    belongs: spec_fn(Tile) -> bool,
    a: Tile,
    b: Tile,
    area_a: int,
    area_b: int,
)
    requires
        belongs(a),
        reaches(region_step(belongs), a, b),
        counts_region(belongs, a, area_a),
        counts_region(belongs, b, area_b),
    ensures
        area_a == area_b,
{
    let step = region_step(belongs);
    lemma_way_back(belongs, a, b);
    let from_a = choose|order: Seq<Tile>| #[trigger]
        lists_flooded(step, seq![a], order) && area_a == order.len();
    let from_b = choose|order: Seq<Tile>| #[trigger]
        lists_flooded(step, seq![b], order) && area_b == order.len();
    assert forall|t: Tile| from_a.contains(t) == from_b.contains(t) by {
        if from_a.contains(t) {
            assert(flooded(step, seq![a], t));
            lemma_reaches_transitive(step, b, a, t);
            assert(reaches(step, seq![b][0], t));
        }
        if from_b.contains(t) {
            assert(flooded(step, seq![b], t));
            lemma_reaches_transitive(step, a, b, t);
            assert(reaches(step, seq![a][0], t));
        }
    }
    assert(from_a.to_set() =~= from_b.to_set());
    from_a.unique_seq_to_set();
    from_b.unique_seq_to_set();
}

/// From a cell of a region the start is reached again.
proof fn lemma_way_back(belongs: spec_fn(Tile) -> bool, a: Tile, b: Tile)
    requires
        belongs(a),
        reaches(region_step(belongs), a, b),
    ensures
        belongs(b),
        reaches(region_step(belongs), b, a),
{
    let step = region_step(belongs);
    let back = |p: Tile| belongs(p) && reaches(step, p, a);
    lemma_reaches_self(step, a);
    assert forall|p: Tile, q: Tile| back(p) && #[trigger] step(p, q) implies back(q) by {
        lemma_reaches_self(step, q);
        assert(step(q, p));
        lemma_reaches_step(step, q, q, p);
        lemma_reaches_transitive(step, q, p, a);
    }
    lemma_closed_set_holds_reachable(step, back, a, b);
}

/// Number of cells of the row `z` from `x0` up to, not including, `x1` that satisfy `f`.
pub open spec fn row_count(f: spec_fn(int, int) -> bool, x0: int, x1: int, z: int) -> int
    decreases x1 - x0,
{
    if x1 <= x0 {
        0
    } else {
        row_count(f, x0, x1 - 1, z) + if f(x1 - 1, z) {
            1int
        } else {
            0
        }
    }
}

/// Number of cells of the box, `x1` and `z1` not included, that satisfy `f`.
pub open spec fn box_count(
    f: spec_fn(int, int) -> bool,
    x0: int,
    z0: int,
    x1: int,
    z1: int,
) -> int
    decreases z1 - z0,
{
    if z1 <= z0 {
        0
    } else {
        box_count(f, x0, z0, x1, z1 - 1) + row_count(f, x0, x1, z1 - 1)
    }
}

proof fn lemma_row_bound(f: spec_fn(int, int) -> bool, x0: int, x1: int, z: int)
    requires
        x0 <= x1,
    ensures
        0 <= row_count(f, x0, x1, z) <= x1 - x0,
    decreases x1 - x0,
{
    if x1 > x0 {
        lemma_row_bound(f, x0, x1 - 1, z);
    }
}

/// A box has no more matching cells than cells.
pub proof fn lemma_box_bound(f: spec_fn(int, int) -> bool, x0: int, z0: int, x1: int, z1: int)
    requires
        x0 <= x1,
        z0 <= z1,
    ensures
        0 <= box_count(f, x0, z0, x1, z1) <= (x1 - x0) * (z1 - z0),
    decreases z1 - z0,
{
    if z1 > z0 {
        lemma_box_bound(f, x0, z0, x1, z1 - 1);
        lemma_row_bound(f, x0, x1, z1 - 1);
        assert((x1 - x0) * (z1 - z0) == (x1 - x0) * (z1 - 1 - z0) + (x1 - x0)) by (nonlinear_arith);
    } else {
        assert((x1 - x0) * (z1 - z0) == 0) by (nonlinear_arith)
            requires
                z1 == z0,
        ;
    }
}

/// Counts that agree cell by cell agree.
pub proof fn lemma_box_same(
    f: spec_fn(int, int) -> bool,
    g: spec_fn(int, int) -> bool,
    x0: int,
    z0: int,
    x1: int,
    z1: int,
)
    requires
        forall|x: int, z: int| x0 <= x < x1 && z0 <= z < z1 ==> f(x, z) == #[trigger] g(x, z),
    ensures
        box_count(f, x0, z0, x1, z1) == box_count(g, x0, z0, x1, z1),
    decreases z1 - z0,
{
    if z1 > z0 {
        lemma_box_same(f, g, x0, z0, x1, z1 - 1);
        lemma_row_same(f, g, x0, x1, z1 - 1);
    }
}

proof fn lemma_row_same(
    f: spec_fn(int, int) -> bool,
    g: spec_fn(int, int) -> bool,
    x0: int,
    x1: int,
    z: int,
)
    requires
        forall|x: int| x0 <= x < x1 ==> f(x, z) == #[trigger] g(x, z),
    ensures
        row_count(f, x0, x1, z) == row_count(g, x0, x1, z),
    decreases x1 - x0,
{
    if x1 > x0 {
        lemma_row_same(f, g, x0, x1 - 1, z);
        assert(f(x1 - 1, z) == g(x1 - 1, z));
    }
}

/// The answers of a test as a predicate on integers.
pub open spec fn answers<F: Fn(i32, i32) -> bool>(f: F) -> spec_fn(int, int) -> bool {
    |x: int, z: int| says(f, x as i32, z as i32)
}

/// Whether every answer of the test is the one that `g` gives.
pub open spec fn follows<F: Fn(i32, i32) -> bool>(f: F, g: spec_fn(int, int) -> bool) -> bool {
    forall|x: i32, z: i32, answer: bool| #[trigger]
        call_ensures(f, (x, z), answer) ==> answer == g(x as int, z as int)
}

/// Whether the test has an answer for (x, z).
spec fn answered<F: Fn(i32, i32) -> bool>(f: F, x: int, z: int) -> bool {
    call_ensures(f, (x as i32, z as i32), true) || call_ensures(f, (x as i32, z as i32), false)
}

/// Count cells in an axis-aligned box where `in_region` is true (connectivity not required).
pub fn count_region_area<F: Fn(i32, i32) -> bool>(
    x0: i32,
    z0: i32,
    x1: i32,
    z1: i32,
    in_region: F,
) -> (area: i32)
    requires
        x0 <= x1 && z0 <= z1 ==> (x1 - x0 + 1) * (z1 - z0 + 1) <= i32::MAX,
        forall|x: i32, z: i32|
            x0 <= x <= x1 && z0 <= z <= z1 ==> #[trigger] call_requires(in_region, (x, z)),
        steady(in_region),
    ensures
        area == (if x0 <= x1 && z0 <= z1 {
            box_count(answers(in_region), x0 as int, z0 as int, x1 + 1, z1 + 1)
        } else {
            0
        }),
        forall|g: spec_fn(int, int) -> bool|
            x0 <= x1 && z0 <= z1 && #[trigger] follows(in_region, g) ==> area == box_count(
                g,
                x0 as int,
                z0 as int,
                x1 + 1,
                z1 + 1,
            ),
{
    if x0 > x1 || z0 > z1 {
        return 0;
    }
    let ghost f = answers(in_region);
    let mut area: i32 = 0;
    let mut z: i64 = z0 as i64;
    while z <= z1 as i64
        invariant
            x0 <= x1,
            z0 <= z <= z1 + 1,
            f == answers(in_region),
            (x1 - x0 + 1) * (z1 - z0 + 1) <= i32::MAX,
            forall|x: i32, z: i32|
                x0 <= x <= x1 && z0 <= z <= z1 ==> #[trigger] call_requires(in_region, (x, z)),
            steady(in_region),
            area == box_count(f, x0 as int, z0 as int, x1 + 1, z as int),
            forall|u: int, w: int|
                x0 <= u <= x1 && z0 <= w < z ==> #[trigger] answered(in_region, u, w),
        decreases z1 + 1 - z,
    {
        let ghost start = area as int;
        proof {
            lemma_box_bound(f, x0 as int, z0 as int, x1 + 1, z as int);
            let w = x1 - x0 + 1;
            assert(w * (z - z0) + w <= w * (z1 - z0 + 1)) by (nonlinear_arith)
                requires
                    w >= 0,
                    z <= z1,
            ;
        }
        let mut x: i64 = x0 as i64;
        while x <= x1 as i64
            invariant
                x0 <= x <= x1 + 1,
                z0 <= z <= z1,
                f == answers(in_region),
                start + (x1 - x0 + 1) <= i32::MAX,
                0 <= start,
                forall|x: i32, z: i32|
                    x0 <= x <= x1 && z0 <= z <= z1 ==> #[trigger] call_requires(in_region, (x, z)),
                steady(in_region),
                area == start + row_count(f, x0 as int, x as int, z as int),
                0 <= area - start <= x - x0,
                forall|u: int, w: int|
                    x0 <= u <= x1 && z0 <= w < z ==> #[trigger] answered(in_region, u, w),
                forall|u: int|
                    x0 <= u < x ==> #[trigger] answered(in_region, u, z as int),
            decreases x1 + 1 - x,
        {
            if in_region(x as i32, z as i32) {
                area += 1;
            }
            x += 1;
        }
        z += 1;
    }
    proof {
        assert forall|g: spec_fn(int, int) -> bool| #[trigger] follows(in_region, g) implies area
            == box_count(g, x0 as int, z0 as int, x1 + 1, z1 + 1) by {
            assert forall|x: int, z: int| x0 <= x < x1 + 1 && z0 <= z < z1 + 1 implies f(x, z)
                == #[trigger] g(x, z) by {
                assert(answered(in_region, x, z));
            }
            lemma_box_same(f, g, x0 as int, z0 as int, x1 + 1, z1 + 1);
        }
    }
    area
}

} // verus!
