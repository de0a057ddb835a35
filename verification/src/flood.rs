//! Flood fill over tiles.
use std::collections::HashMap;

use vstd::prelude::*;

use crate::map::search::{abs_int, adjacent, Tile};
use crate::reach::{
    joined, lemma_closed_set_holds_reachable, lemma_reaches_self, lemma_reaches_step,
    lemma_reaches_within_step, reaches, reaches_within, walks,
};

verus! {

broadcast use vstd::std_specs::hash::group_hash_axioms;

spec fn tile_number(t: Tile) -> int {
    (t.0 + 0x8000_0000) * 0x1_0000_0000 + (t.1 + 0x8000_0000)
}

fn number_of(t: (i32, i32)) -> (n: u64)
    ensures
        n == tile_number(t),
{
    (t.0 as i64 + 0x8000_0000) as u64 * 0x1_0000_0000 + (t.1 as i64 + 0x8000_0000) as u64
}

proof fn lemma_tile_number(a: Tile, b: Tile)
    requires
        tile_number(a) == tile_number(b),
    ensures
        a == b,
{
    let ah = a.0 + 0x8000_0000;
    let bh = b.0 + 0x8000_0000;
    assert(ah == bh) by (nonlinear_arith)
        requires
            ah * 0x1_0000_0000 + (a.1 + 0x8000_0000) == bh * 0x1_0000_0000 + (b.1 + 0x8000_0000),
            0 <= a.1 + 0x8000_0000 < 0x1_0000_0000,
            0 <= b.1 + 0x8000_0000 < 0x1_0000_0000,
    ;
}

/// A set of tiles.
pub struct TileSet {
    marks: HashMap<u64, bool>,
}

impl View for TileSet {
    type V = Set<Tile>;

    closed spec fn view(&self) -> Set<Tile> {
        Set::new(|t: Tile| self.marks@.contains_key(tile_number(t) as u64))
    }
}

impl TileSet {
    pub fn new() -> (set: Self)
        ensures
            set@ == Set::<Tile>::empty(),
    {
        let set = TileSet { marks: HashMap::new() };
        assert(set@ =~= Set::<Tile>::empty());
        set
    }

    pub fn contains(&self, t: (i32, i32)) -> (held: bool)
        ensures
            held == self@.contains(t),
    {
        self.marks.contains_key(&number_of(t))
    }

    pub fn insert(&mut self, t: (i32, i32))
        ensures
            final(self)@ == old(self)@.insert(t),
    {
        let n: u64 = number_of(t);
        self.marks.insert(n, true);
        proof {
            assert forall|u: Tile| self@.contains(u) == old(self)@.insert(t).contains(u) by {
                if tile_number(u) == n {
                    lemma_tile_number(u, t);
                }
            }
            assert(self@ =~= old(self)@.insert(t));
        }
    }
}

/// Where a flood may spread.
pub trait TileField {
    spec fn valid(&self) -> bool;

    /// Whether the flood spreads from `a` to its neighbour `b`.
    spec fn spreads(&self, a: Tile, b: Tile) -> bool;

    /// What is known of the neighbours `a` and `b` where the flood was found not to spread.
    spec fn denies(&self, a: Tile, b: Tile) -> bool;

    proof fn spreads_to_neighbours(&self)
        requires
            self.valid(),
        ensures
            forall|a: Tile, b: Tile| #[trigger] self.spreads(a, b) ==> adjacent(a, b),
    ;

    fn can_spread(&self, a: (i32, i32), b: (i32, i32)) -> (yes: bool)
        requires
            self.valid(),
            adjacent(a, b),
        ensures
            yes == self.spreads(a, b),
            yes || self.denies(a, b),
    ;
}

/// The steps of a flood.
pub open spec fn flood_step<F: TileField>(field: F) -> spec_fn(Tile, Tile) -> bool {
    |a: Tile, b: Tile| field.spreads(a, b)
}

/// Whether one of the starts reaches the tile.
pub open spec fn flooded(step: spec_fn(Tile, Tile) -> bool, starts: Seq<Tile>, t: Tile) -> bool {
    exists|i: int| 0 <= i < starts.len() && reaches(step, #[trigger] starts[i], t)
}

/// Whether `order` lists the tiles that the starts reach, each once.
pub open spec fn lists_flooded(
    step: spec_fn(Tile, Tile) -> bool,
    starts: Seq<Tile>,
    order: Seq<Tile>,
) -> bool {
    order.no_duplicates() && forall|t: Tile| #[trigger]
        order.contains(t) <==> flooded(step, starts, t)
}

/// Whether the tile at index `j` has all its successors in `order`.
spec fn expanded<F: TileField>(field: F, order: Seq<Tile>, j: int) -> bool {
    forall|b: Tile| #[trigger] field.spreads(order[j], b) ==> order.contains(b)
}

/// Whether the field denies the flood the neighbours of the tile at index `j` that are not in
/// `order`.
spec fn denied<F: TileField>(field: F, order: Seq<Tile>, j: int) -> bool {
    forall|b: Tile| #[trigger]
        adjacent(order[j], b) ==> order.contains(b) || field.denies(order[j], b)
}

/// A sequence without duplicates, with one tile that was not in it.
pub proof fn lemma_push_new(order: Seq<Tile>, t: Tile)
    requires
        order.no_duplicates(),
        !order.contains(t),
    ensures
        order.push(t).no_duplicates(),
        forall|u: Tile| #[trigger] order.push(t).contains(u) <==> order.contains(u) || u == t,
{
    let longer = order.push(t);
    assert(longer[order.len() as int] == t);
    assert forall|u: Tile| #[trigger] longer.contains(u) <==> order.contains(u) || u == t by {
        if order.contains(u) {
            let i = choose|i: int| 0 <= i < order.len() && order[i] == u;
            assert(longer[i] == u);
        }
        if longer.contains(u) {
            let i = choose|i: int| 0 <= i < longer.len() && longer[i] == u;
            if i < order.len() {
                assert(order[i] == u);
            }
        }
    }
    assert forall|i: int, j: int| 0 <= i < longer.len() && 0 <= j < longer.len() && i
        != j implies longer[i] != longer[j] by {
        if i < order.len() && j == order.len() {
            assert(order.contains(order[i]));
        }
        if j < order.len() && i == order.len() {
            assert(order.contains(order[j]));
        }
    }
}

fn try_spread<F: TileField>(
    field: &F,
    order: &mut Vec<(i32, i32)>,
    seen: &mut TileSet,
    from: (i32, i32),
    x: i64,
    z: i64,
    Ghost(starts): Ghost<Seq<Tile>>,
)
    requires
        field.valid(),
        abs_int(x - from.0) + abs_int(z - from.1) == 1,
        old(order)@.no_duplicates(),
        old(seen)@ == old(order)@.to_set(),
        old(order)@.contains(from),
        forall|t: Tile| #[trigger]
            old(order)@.contains(t) ==> flooded(flood_step(*field), starts, t),
    ensures
        final(order)@.no_duplicates(),
        final(seen)@ == final(order)@.to_set(),
        final(order)@.len() >= old(order)@.len(),
        final(order)@.take(old(order)@.len() as int) == old(order)@,
        forall|t: Tile| #[trigger]
            final(order)@.contains(t) ==> flooded(flood_step(*field), starts, t),
        forall|b: Tile|
            b.0 == x && b.1 == z && field.spreads(from, b) ==> #[trigger] final(order)@.contains(b),
        forall|b: Tile|
            b.0 == x && b.1 == z ==> #[trigger] final(order)@.contains(b) || field.denies(from, b),
        forall|t: Tile| #[trigger] old(order)@.contains(t) ==> final(order)@.contains(t),
{
    proof {
        assert(order@.take(order@.len() as int) =~= order@);
    }
    if x < i32::MIN as i64 || x > i32::MAX as i64 || z < i32::MIN as i64 || z > i32::MAX as i64 {
        return;
    }
    let next: Tile = (x as i32, z as i32);
    if seen.contains(next) {
        return;
    }
    if field.can_spread(from, next) {
        proof {
            lemma_push_new(order@, next);
            let step = flood_step(*field);
            let i = choose|i: int| 0 <= i < starts.len() && reaches(step, #[trigger] starts[i], from);
            lemma_reaches_step(step, starts[i], from, next);
        }
        seen.insert(next);
        order.push(next);
        proof {
            assert(order@.take(old(order)@.len() as int) =~= old(order)@);
            assert(seen@ =~= order@.to_set());
        }
    }
}

/// The tiles that a flood from the starts covers, in the order in which it gets there.
pub fn flood<F: TileField>(field: &F, starts: &Vec<(i32, i32)>) -> (order: Vec<(i32, i32)>)
    requires
        field.valid(),
    ensures
        lists_flooded(flood_step(*field), starts@, order@),
        forall|a: Tile, b: Tile|
            order@.contains(a) && #[trigger] adjacent(a, b) ==> order@.contains(b)
                || field.denies(a, b),
{
    let ghost step = flood_step(*field);
    let mut order: Vec<(i32, i32)> = Vec::new();
    let mut seen = TileSet::new();
    let mut k: usize = 0;
    assert(order@.to_set() =~= seen@);
    while k < starts.len()
        invariant
            step == flood_step(*field),
            k <= starts@.len(),
            order@.no_duplicates(),
            seen@ == order@.to_set(),
            forall|i: int| 0 <= i < k ==> order@.contains(#[trigger] starts@[i]),
            forall|t: Tile| #[trigger] order@.contains(t) ==> flooded(step, starts@, t),
        decreases starts@.len() - k,
    {
        let s: Tile = starts[k];
        if !seen.contains(s) {
            proof {
                lemma_push_new(order@, s);
                lemma_reaches_self(step, s);
                assert(reaches(step, starts@[k as int], s));
            }
            seen.insert(s);
            order.push(s);
            assert(seen@ =~= order@.to_set());
        } else {
            assert(order@.contains(s));
        }
        k += 1;
    }
    let mut i: usize = 0;
    while i < order.len()
        invariant
            field.valid(),
            step == flood_step(*field),
            i <= order@.len(),
            order@.no_duplicates(),
            seen@ == order@.to_set(),
            forall|j: int| 0 <= j < starts@.len() ==> order@.contains(#[trigger] starts@[j]),
            forall|t: Tile| #[trigger] order@.contains(t) ==> flooded(step, starts@, t),
            forall|j: int| 0 <= j < i ==> #[trigger] expanded(*field, order@, j),
            forall|j: int| 0 <= j < i ==> #[trigger] denied(*field, order@, j),
        decreases 0x1_0000_0000_0000_0000int - i,
    {
        let t: Tile = order[i];
        let x: i64 = t.0 as i64;
        let z: i64 = t.1 as i64;
        let ghost before = order@;
        assert(order@.contains(t));
        try_spread(field, &mut order, &mut seen, t, x, z - 1, Ghost(starts@));
        let ghost o1 = order@;
        try_spread(field, &mut order, &mut seen, t, x, z + 1, Ghost(starts@));
        let ghost o2 = order@;
        try_spread(field, &mut order, &mut seen, t, x + 1, z, Ghost(starts@));
        let ghost o3 = order@;
        try_spread(field, &mut order, &mut seen, t, x - 1, z, Ghost(starts@));
        proof {
            assert(before =~= order@.take(before.len() as int));
            assert(forall|j: int| 0 <= j < before.len() ==> before[j] == #[trigger] order@[j]);
            field.spreads_to_neighbours();
            assert forall|j: int| 0 <= j < i + 1 implies #[trigger] expanded(*field, order@, j) by {
                if j < i {
                    assert(expanded(*field, before, j));
                } else {
                    assert forall|b: Tile| #[trigger] field.spreads(order@[j], b) implies order@.contains(
                        b,
                    ) by {
                        assert(adjacent(t, b));
                        assert(b.0 == x && b.1 == z - 1 ==> o1.contains(b));
                        assert(b.0 == x && b.1 == z + 1 ==> o2.contains(b));
                        assert(b.0 == x + 1 && b.1 == z ==> o3.contains(b));
                        assert(b.0 == x - 1 && b.1 == z ==> order@.contains(b));
                    }
                }
            }
            assert forall|j: int| 0 <= j < i + 1 implies #[trigger] denied(*field, order@, j) by {
                if j < i {
                    assert(denied(*field, before, j));
                } else {
                    assert forall|b: Tile| #[trigger] adjacent(
                        order@[j],
                        b,
                    ) implies order@.contains(b) || field.denies(order@[j], b) by {
                        assert(b.0 == x && b.1 == z - 1 ==> o1.contains(b) || field.denies(t, b));
                        assert(b.0 == x && b.1 == z + 1 ==> o2.contains(b) || field.denies(t, b));
                        assert(b.0 == x + 1 && b.1 == z ==> o3.contains(b) || field.denies(t, b));
                        assert(b.0 == x - 1 && b.1 == z ==> order@.contains(b) || field.denies(
                            t,
                            b,
                        ));
                    }
                }
            }
            lemma_tile_count(order@);
        }
        i += 1;
    }
    proof {
        assert forall|a: Tile, b: Tile|
            order@.contains(a) && #[trigger] adjacent(a, b) implies order@.contains(b)
            || field.denies(a, b) by {
            let j = choose|j: int| 0 <= j < order@.len() && order@[j] == a;
            assert(denied(*field, order@, j));
            assert(adjacent(order@[j], b));
        }
        let inside = |t: Tile| order@.contains(t);
        assert forall|p: Tile, q: Tile| inside(p) && #[trigger] step(p, q) implies inside(q) by {
            let j = choose|j: int| 0 <= j < order@.len() && order@[j] == p;
            assert(expanded(*field, order@, j));
            assert(field.spreads(order@[j], q));
        }
        assert forall|t: Tile| flooded(step, starts@, t) implies #[trigger] order@.contains(t) by {
            let s = choose|s: int| 0 <= s < starts@.len() && reaches(step, #[trigger] starts@[s], t);
            lemma_closed_set_holds_reachable(step, inside, starts@[s], t);
        }
    }
    order
}

/// A walk may be shorter than it has to be.
pub proof fn lemma_within_more(
    step: spec_fn(Tile, Tile) -> bool,
    s: Tile,
    t: Tile,
    k: int,
    more: int,
)
    requires
        reaches_within(step, s, t, k),
        k <= more,
    ensures
        reaches_within(step, s, t, more),
{
    let path = choose|path: Seq<Tile>| walks(step, s, t, path) && path.len() <= k + 1;
    assert(walks(step, s, t, path) && path.len() <= more + 1);
}

/// A flood that goes one step further reaches what it reached before and the successors of
/// that.
pub proof fn lemma_flood_grows(step: spec_fn(Tile, Tile) -> bool, s: Tile, t: Tile, k: int)
    requires
        reaches_within(step, s, t, k + 1),
        k >= 0,
    ensures
        reaches_within(step, s, t, k) || exists|p: Tile|
            reaches_within(step, s, p, k) && #[trigger] step(p, t),
{
    let path = choose|path: Seq<Tile>| walks(step, s, t, path) && path.len() <= k + 2;
    if path.len() > k + 1 {
        let shorter = path.drop_last();
        let p = shorter.last();
        assert forall|i: int| 0 <= i < shorter.len() - 1 implies #[trigger] joined(
            step,
            shorter,
            i,
        ) by {
            assert(joined(step, path, i));
        }
        assert(walks(step, s, p, shorter));
        assert(joined(step, path, path.len() - 2));
        assert(step(p, t));
    } else {
        assert(walks(step, s, t, path));
    }
}

fn try_reach<F: TileField>(
    field: &F,
    order: &mut Vec<(i32, i32)>,
    seen: &mut TileSet,
    from: (i32, i32),
    x: i64,
    z: i64,
    Ghost(start): Ghost<Tile>,
    Ghost(k): Ghost<int>,
)
    requires
        field.valid(),
        abs_int(x - from.0) + abs_int(z - from.1) == 1,
        reaches_within(flood_step(*field), start, from, k),
        old(order)@.no_duplicates(),
        old(seen)@ == old(order)@.to_set(),
        forall|t: Tile| #[trigger]
            old(order)@.contains(t) ==> reaches_within(flood_step(*field), start, t, k + 1),
    ensures
        final(order)@.no_duplicates(),
        final(seen)@ == final(order)@.to_set(),
        final(order)@.len() >= old(order)@.len(),
        forall|j: int|
            0 <= j < old(order)@.len() ==> old(order)@[j] == #[trigger] final(order)@[j],
        forall|t: Tile| #[trigger]
            final(order)@.contains(t) ==> reaches_within(flood_step(*field), start, t, k + 1),
        forall|t: Tile| #[trigger] old(order)@.contains(t) ==> final(order)@.contains(t),
        forall|b: Tile|
            b.0 == x && b.1 == z && field.spreads(from, b) ==> #[trigger] final(order)@.contains(b),
{
    if x < i32::MIN as i64 || x > i32::MAX as i64 || z < i32::MIN as i64 || z > i32::MAX as i64 {
        return;
    }
    let next: Tile = (x as i32, z as i32);
    if seen.contains(next) {
        return;
    }
    if field.can_spread(from, next) {
        proof {
            lemma_push_new(order@, next);
            lemma_reaches_within_step(flood_step(*field), start, from, next, k);
        }
        seen.insert(next);
        order.push(next);
        assert(seen@ =~= order@.to_set());
    }
}

/// A flood after `k` steps: its tiles in the order in which it got there, of which the first
/// `done` have spread.
struct Wave {
    order: Vec<(i32, i32)>,
    seen: TileSet,
    done: usize,
}

impl Wave {
    spec fn covers<F: TileField>(self, field: F, start: Tile, k: int) -> bool {
        &&& self.done <= self.order@.len()
        &&& self.order@.no_duplicates()
        &&& self.order@.contains(start)
        &&& self.seen@ == self.order@.to_set()
        &&& forall|j: int| 0 <= j < self.done ==> #[trigger] expanded(field, self.order@, j)
        &&& forall|t: Tile| #[trigger]
            self.order@.contains(t) <==> reaches_within(flood_step(field), start, t, k)
    }

    fn at_start<F: TileField>(field: &F, start: (i32, i32)) -> (wave: Wave)
        ensures
            wave.covers(*field, start, 0),
            wave.order@ == seq![start],
            wave.done == 0,
    {
        let ghost step = flood_step(*field);
        let mut order: Vec<(i32, i32)> = Vec::new();
        let mut seen = TileSet::new();
        assert(seen@ =~= order@.to_set());
        proof {
            lemma_push_new(order@, start);
            lemma_reaches_self(step, start);
        }
        seen.insert(start);
        order.push(start);
        proof {
            assert(seen@ =~= order@.to_set());
            assert forall|t: Tile| #[trigger] order@.contains(t) <==> reaches_within(
                step,
                start,
                t,
                0,
            ) by {
                if reaches_within(step, start, t, 0) {
                    let path = choose|path: Seq<Tile>|
                        walks(step, start, t, path) && path.len() <= 1;
                    assert(t == start);
                }
            }
            assert(order@ =~= seq![start]);
        }
        Wave { order, seen, done: 0 }
    }

    /// One step further: every tile that has not spread yet does.
    fn spread<F: TileField>(&mut self, field: &F, Ghost(start): Ghost<Tile>, Ghost(k): Ghost<int>)
        requires
            field.valid(),
            old(self).covers(*field, start, k),
            k >= 0,
        ensures
            final(self).covers(*field, start, k + 1),
            final(self).done == old(self).order@.len(),
            final(self).order@.len() >= old(self).order@.len(),
            forall|j: int|
                0 <= j < old(self).order@.len() ==> old(self).order@[j] == #[trigger] final(
                    self).order@[j],
    {
        let ghost step = flood_step(*field);
        let reached: usize = self.order.len();
        let ghost before = self.order@;
        proof {
            assert forall|t: Tile| #[trigger] self.order@.contains(t) implies reaches_within(
                step,
                start,
                t,
                k + 1,
            ) by {
                lemma_within_more(step, start, t, k, k + 1);
            }
        }
        while self.done < reached
            invariant
                field.valid(),
                step == flood_step(*field),
                self.done <= reached <= self.order@.len(),
                reached == before.len(),
                forall|j: int| 0 <= j < reached ==> before[j] == #[trigger] self.order@[j],
                self.order@.no_duplicates(),
                self.seen@ == self.order@.to_set(),
                forall|t: Tile| #[trigger]
                    before.contains(t) <==> reaches_within(step, start, t, k),
                forall|t: Tile| #[trigger]
                    self.order@.contains(t) ==> reaches_within(step, start, t, k + 1),
                forall|t: Tile| #[trigger] before.contains(t) ==> self.order@.contains(t),
                forall|j: int|
                    0 <= j < self.done ==> #[trigger] expanded(*field, self.order@, j),
            decreases reached - self.done,
        {
            let t: Tile = self.order[self.done];
            let ghost at = self.done as int;
            assert(before[at] == self.order@[at]);
            assert(before.contains(t));
            let x: i64 = t.0 as i64;
            let z: i64 = t.1 as i64;
            let ghost o0 = self.order@;
            try_reach(field, &mut self.order, &mut self.seen, t, x, z - 1, Ghost(start), Ghost(k));
            let ghost o1 = self.order@;
            try_reach(field, &mut self.order, &mut self.seen, t, x, z + 1, Ghost(start), Ghost(k));
            let ghost o2 = self.order@;
            try_reach(field, &mut self.order, &mut self.seen, t, x + 1, z, Ghost(start), Ghost(k));
            let ghost o3 = self.order@;
            try_reach(field, &mut self.order, &mut self.seen, t, x - 1, z, Ghost(start), Ghost(k));
            proof {
                field.spreads_to_neighbours();
                let o4 = self.order@;
                assert forall|j: int| 0 <= j < o0.len() implies o0[j] == #[trigger] o4[j] by {
                    assert(o0[j] == o1[j]);
                    assert(o1[j] == o2[j]);
                    assert(o2[j] == o3[j]);
                }
                assert forall|j: int| 0 <= j < reached implies before[j] == #[trigger] o4[j] by {
                    assert(before[j] == o0[j]);
                }
                assert forall|j: int| 0 <= j < at + 1 implies #[trigger] expanded(*field, o4, j) by {
                    assert forall|b: Tile| #[trigger] field.spreads(o4[j], b) implies o4.contains(
                        b,
                    ) by {
                        if j < at {
                            assert(expanded(*field, o0, j));
                            assert(o0[j] == o4[j]);
                            assert(o0.contains(b));
                        } else {
                            assert(adjacent(t, b));
                            assert(b.0 == x && b.1 == z - 1 ==> o1.contains(b));
                            assert(b.0 == x && b.1 == z + 1 ==> o2.contains(b));
                            assert(b.0 == x + 1 && b.1 == z ==> o3.contains(b));
                            assert(b.0 == x - 1 && b.1 == z ==> o4.contains(b));
                        }
                    }
                }
            }
            self.done += 1;
        }
        proof {
            let order = self.order@;
            assert forall|t: Tile| reaches_within(step, start, t, k + 1) implies #[trigger] order.contains(
                t,
            ) by {
                lemma_flood_grows(step, start, t, k);
                if !reaches_within(step, start, t, k) {
                    let p = choose|p: Tile|
                        reaches_within(step, start, p, k) && #[trigger] step(p, t);
                    assert(before.contains(p));
                    let j = choose|j: int| 0 <= j < before.len() && before[j] == p;
                    assert(order[j] == p);
                    assert(expanded(*field, order, j));
                    assert(field.spreads(order[j], t));
                } else {
                    assert(before.contains(t));
                }
            }
        }
    }

    /// A flood that has nowhere left to spread covers all that any longer one does.
    proof fn nothing_left<F: TileField>(self, field: F, start: Tile, k: int, steps: int)
        requires
            self.covers(field, start, k),
            self.done == self.order@.len(),
            k <= steps,
        ensures
            forall|t: Tile| #[trigger]
                self.order@.contains(t) <==> reaches_within(flood_step(field), start, t, steps),
    {
        let step = flood_step(field);
        let order = self.order@;
        let inside = |t: Tile| order.contains(t);
        assert forall|p: Tile, q: Tile| inside(p) && #[trigger] step(p, q) implies inside(q) by {
            let j = choose|j: int| 0 <= j < order.len() && order[j] == p;
            assert(expanded(field, order, j));
            assert(field.spreads(order[j], q));
        }
        assert forall|t: Tile| #[trigger]
            order.contains(t) <==> reaches_within(step, start, t, steps) by {
            if order.contains(t) {
                lemma_within_more(step, start, t, k, steps);
            }
            if reaches_within(step, start, t, steps) {
                let path = choose|path: Seq<Tile>|
                    walks(step, start, t, path) && path.len() <= steps + 1;
                assert(reaches(step, start, t));
                lemma_closed_set_holds_reachable(step, inside, start, t);
            }
        }
    }
}

/// The tiles that a flood of `steps` steps from `start` covers, each once.
pub fn flood_within<F: TileField>(field: &F, start: (i32, i32), steps: u32) -> (order: Vec<
    (i32, i32),
>)
    requires
        field.valid(),
    ensures
        order@.no_duplicates(),
        forall|t: Tile| #[trigger]
            order@.contains(t) <==> reaches_within(flood_step(*field), start, t, steps as int),
{
    let mut wave = Wave::at_start(field, start);
    let mut k: u32 = 0;
    while k < steps && wave.done < wave.order.len()
        invariant
            field.valid(),
            k <= steps,
            wave.covers(*field, start, k as int),
        decreases steps - k,
    {
        wave.spread(field, Ghost(start), Ghost(k as int));
        k += 1;
    }
    proof {
        if k < steps {
            wave.nothing_left(*field, start, k as int, steps as int);
        }
    }
    wave.order
}

/// Whether the tile is `d` steps away from the start and no less.
pub open spec fn steps_away(step: spec_fn(Tile, Tile) -> bool, start: Tile, t: Tile, d: int) -> bool {
    reaches_within(step, start, t, d) && (d > 0 ==> !reaches_within(step, start, t, d - 1))
}

/// The tiles that a flood of `steps` steps from `start` covers, each once with the
/// number of steps that lead there.
pub fn flood_distances<F: TileField>(field: &F, start: (i32, i32), steps: u32) -> (reached: Vec<
    ((i32, i32), u32),
>)
    requires
        field.valid(),
    ensures
        forall|i: int, j: int|
            0 <= i < j < reached@.len() ==> (#[trigger] reached@[i]).0 != (#[trigger] reached@[j]).0,
        forall|i: int|
            0 <= i < reached@.len() ==> (#[trigger] reached@[i]).1 <= steps && steps_away(
                flood_step(*field),
                start,
                reached@[i].0,
                reached@[i].1 as int,
            ),
        forall|t: Tile| #[trigger]
            reaches_within(flood_step(*field), start, t, steps as int) ==> exists|i: int|
                0 <= i < reached@.len() && (#[trigger] reached@[i]).0 == t,
{
    let ghost step = flood_step(*field);
    let mut wave = Wave::at_start(field, start);
    let mut reached: Vec<((i32, i32), u32)> = Vec::new();
    reached.push((start, 0));
    let mut k: u32 = 0;
    while k < steps && wave.done < wave.order.len()
        invariant
            field.valid(),
            step == flood_step(*field),
            k <= steps,
            wave.covers(*field, start, k as int),
            reached@.len() == wave.order@.len(),
            forall|i: int|
                0 <= i < reached@.len() ==> (#[trigger] reached@[i]).0 == wave.order@[i]
                    && reached@[i].1 <= k && steps_away(
                    step,
                    start,
                    reached@[i].0,
                    reached@[i].1 as int,
                ),
        decreases steps - k,
    {
        let ghost before = wave.order@;
        let mut i: usize = wave.order.len();
        wave.spread(field, Ghost(start), Ghost(k as int));
        while i < wave.order.len()
            invariant
                step == flood_step(*field),
                k < steps,
                wave.covers(*field, start, k + 1),
                before.len() <= i <= wave.order@.len(),
                reached@.len() == i,
                forall|j: int| 0 <= j < before.len() ==> before[j] == #[trigger] wave.order@[j],
                forall|t: Tile| #[trigger]
                    before.contains(t) <==> reaches_within(step, start, t, k as int),
                forall|j: int|
                    0 <= j < reached@.len() ==> (#[trigger] reached@[j]).0 == wave.order@[j]
                        && reached@[j].1 <= k + 1 && steps_away(
                        step,
                        start,
                        reached@[j].0,
                        reached@[j].1 as int,
                    ),
            decreases wave.order@.len() - i,
        {
            let t: Tile = wave.order[i];
            proof {
                assert(wave.order@.contains(t));
                assert(!before.contains(t)) by {
                    if before.contains(t) {
                        let j = choose|j: int| 0 <= j < before.len() && before[j] == t;
                        assert(wave.order@[j] == wave.order@[i as int]);
                    }
                }
                assert(steps_away(step, start, t, k + 1));
            }
            reached.push((t, k + 1));
            i += 1;
        }
        k += 1;
    }
    proof {
        if k < steps {
            wave.nothing_left(*field, start, k as int, steps as int);
        }
        assert forall|i: int, j: int| 0 <= i < j < reached@.len() implies (
        #[trigger] reached@[i]).0 != (#[trigger] reached@[j]).0 by {
            assert(wave.order@[i] != wave.order@[j]);
        }
        assert forall|t: Tile| #[trigger]
            reaches_within(step, start, t, steps as int) implies exists|i: int|
            0 <= i < reached@.len() && (#[trigger] reached@[i]).0 == t by {
            assert(wave.order@.contains(t));
            let i = choose|i: int| 0 <= i < wave.order@.len() && wave.order@[i] == t;
            assert(reached@[i].0 == t);
        }
    }
    reached
}

/// There are no more than 2^64 tiles.
pub proof fn lemma_tile_count(order: Seq<Tile>)
    requires
        order.no_duplicates(),
    ensures
        order.len() <= 0x1_0000_0000_0000_0000int,
{
    let numbers = order.map_values(|t: Tile| tile_number(t));
    assert forall|i: int, j: int| 0 <= i < numbers.len() && 0 <= j < numbers.len() && i
        != j implies numbers[i] != numbers[j] by {
        if numbers[i] == numbers[j] {
            lemma_tile_number(order[i], order[j]);
        }
    }
    numbers.unique_seq_to_set();
    let all = vstd::set_lib::set_int_range(0, 0x1_0000_0000_0000_0000int);
    vstd::set_lib::lemma_int_range(0, 0x1_0000_0000_0000_0000int);
    assert(numbers.to_set().subset_of(all)) by {
        assert forall|n: int| numbers.to_set().contains(n) implies all.contains(n) by {
            let i = choose|i: int| 0 <= i < numbers.len() && numbers[i] == n;
            let t = order[i];
            assert(n == tile_number(t));
        }
    }
    vstd::set_lib::lemma_len_subset(numbers.to_set(), all);
}

} // verus!
