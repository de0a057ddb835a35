//! Step 5b: merge subseed room rects into whole houses (drop subseed identity).
use vstd::prelude::*;

use crate::map::map_generator::draft::{MapDraft, Room, RoomRecord};
use crate::map::map_generator::grid_fill::{box_count, count_region_area, follows, lemma_box_bound};
use crate::map::map_generator::house::{house_fits, union_has, House};
use crate::map::map_generator::union::union_contains;
use crate::reach::{
    lemma_closed_set_holds_reachable, lemma_reaches_self, lemma_reaches_step,
    lemma_reaches_symmetric, lemma_reaches_transitive, reaches,
};

verus! {

/// Whether two rectangles share a cell (touching-only rects stay separate houses).
pub open spec fn overlap(a: Room, b: Room) -> bool {
    a.x0 <= b.x1 && b.x0 <= a.x1 && a.z0 <= b.z1 && b.z0 <= a.z1
}

/// Steps between the indices of overlapping rects.
pub open spec fn overlap_step(records: Seq<RoomRecord>) -> spec_fn(int, int) -> bool {
    |i: int, j: int|
        0 <= i < records.len() && 0 <= j < records.len() && overlap(
            records[i].bounds,
            records[j].bounds,
        )
}

/// Whether two rects belong to one house: a chain of overlapping rects joins them.
pub open spec fn same_house(records: Seq<RoomRecord>, i: int, j: int) -> bool {
    reaches(overlap_step(records), i, j)
}

/// Whether no earlier rect belongs to the house of rect `i`.
pub open spec fn leads(records: Seq<RoomRecord>, i: int) -> bool {
    forall|k: int| 0 <= k < i ==> !#[trigger] same_house(records, k, i)
}

/// The first rects of all houses among the first `n` rects, in order.
pub open spec fn leaders(records: Seq<RoomRecord>, n: nat) -> Seq<int>
    decreases n,
{
    if n == 0 {
        seq![]
    } else if leads(records, n - 1) {
        leaders(records, (n - 1) as nat).push(n - 1)
    } else {
        leaders(records, (n - 1) as nat)
    }
}

/// The rects among the first `n` that belong to the house of rect `lead`, in order.
pub open spec fn members(records: Seq<RoomRecord>, lead: int, n: nat) -> Seq<Room>
    decreases n,
{
    if n == 0 {
        seq![]
    } else if same_house(records, lead, n - 1) {
        members(records, lead, (n - 1) as nat).push(records[n - 1].bounds)
    } else {
        members(records, lead, (n - 1) as nat)
    }
}

/// Whether the house has just these rects, their bounding box, the area of their union and
/// no doorway yet.
pub open spec fn built_from(house: House, rects: Seq<Room>) -> bool {
    &&& house.rects@ == rects
    &&& bounding(house, rects)
    &&& house.footprint_area == box_count(
        |x: int, z: int| union_has(rects, x, z),
        house.x0 as int,
        house.z0 as int,
        house.x1 + 1,
        house.z1 + 1,
    )
    &&& house.entry is None
    &&& house.entry2 is None
}

/// Whether the box of the house is the smallest one around the rects.
pub open spec fn bounding(house: House, rects: Seq<Room>) -> bool {
    &&& forall|i: int|
        0 <= i < rects.len() ==> house.x0 <= (#[trigger] rects[i]).x0 && rects[i].x1 <= house.x1
            && house.z0 <= rects[i].z0 && rects[i].z1 <= house.z1
    &&& exists|i: int| 0 <= i < rects.len() && (#[trigger] rects[i]).x0 == house.x0
    &&& exists|i: int| 0 <= i < rects.len() && (#[trigger] rects[i]).z0 == house.z0
    &&& exists|i: int| 0 <= i < rects.len() && (#[trigger] rects[i]).x1 == house.x1
    &&& exists|i: int| 0 <= i < rects.len() && (#[trigger] rects[i]).z1 == house.z1
}

/// Whether the houses are the clusters of the records.
pub open spec fn clustered(records: Seq<RoomRecord>, houses: Seq<House>) -> bool {
    let firsts = leaders(records, records.len());
    &&& houses.len() == firsts.len()
    &&& forall|h: int|
        0 <= h < houses.len() ==> built_from(
            #[trigger] houses[h],
            members(records, firsts[h], records.len()),
        )
}

/// Whether the rect is not empty and lies in an `n` by `n` grid.
pub open spec fn proper(room: Room, n: int) -> bool {
    0 <= room.x0 <= room.x1 < n && 0 <= room.z0 <= room.z1 < n
}

fn rects_connect(a: Room, b: Room) -> (yes: bool)
    ensures
        yes == overlap(a, b),
{
    a.x0 <= b.x1 && b.x0 <= a.x1 && a.z0 <= b.z1 && b.z0 <= a.z1
}

proof fn lemma_same_house(records: Seq<RoomRecord>)
    ensures
        forall|i: int, j: int| #[trigger]
            same_house(records, i, j) ==> same_house(records, j, i),
        forall|i: int, j: int, k: int|
            #![trigger same_house(records, i, j), same_house(records, j, k)]
            same_house(records, i, j) && same_house(records, j, k) ==> same_house(records, i, k),
        forall|i: int| #[trigger] same_house(records, i, i),
{
    let step = overlap_step(records);
    assert forall|i: int, j: int| #[trigger] same_house(records, i, j) implies same_house(
        records,
        j,
        i,
    ) by {
        lemma_reaches_symmetric(step, i, j);
    }
    assert forall|i: int, j: int, k: int|
        #![trigger same_house(records, i, j), same_house(records, j, k)]
        same_house(records, i, j) && same_house(records, j, k) implies same_house(
        records,
        i,
        k,
    ) by {
        lemma_reaches_transitive(step, i, j, k);
    }
    assert forall|i: int| #[trigger] same_house(records, i, i) by {
        lemma_reaches_self(step, i);
    }
}

/// Gives all rects of one house the same label and rects of different houses different ones.
fn label_houses(records: &[RoomRecord]) -> (labels: Vec<usize>)
    ensures
        labels@.len() == records@.len(),
        forall|a: int, b: int|
            0 <= a < labels@.len() && 0 <= b < labels@.len() ==> (#[trigger] labels@[a]
                == #[trigger] labels@[b] <==> same_house(records@, a, b)),
{
    let n: usize = records.len();
    let ghost recs = records@;
    let ghost step = overlap_step(recs);
    let mut labels: Vec<usize> = Vec::with_capacity(n);
    while labels.len() < n
        invariant
            n == records@.len(),
            labels@.len() <= n,
            forall|a: int| 0 <= a < labels@.len() ==> #[trigger] labels@[a] == a,
        decreases n - labels@.len(),
    {
        let next: usize = labels.len();
        labels.push(next);
    }
    proof {
        lemma_same_house(recs);
    }
    let mut i: usize = 0;
    while i < n
        invariant
            n == records@.len(),
            recs == records@,
            step == overlap_step(recs),
            i <= n,
            labels@.len() == n,
            forall|a: int, b: int|
                0 <= a < n && 0 <= b < n && #[trigger] labels@[a] == #[trigger] labels@[b]
                    ==> same_house(recs, a, b),
            forall|a: int, b: int|
                0 <= a < i && a < b < n && overlap(recs[a].bounds, recs[b].bounds)
                    ==> #[trigger] labels@[a] == #[trigger] labels@[b],
        decreases n - i,
    {
        let mut j: usize = i + 1;
        while j < n
            invariant
                n == records@.len(),
                recs == records@,
                step == overlap_step(recs),
                i < n,
                i < j <= n,
                labels@.len() == n,
                forall|a: int, b: int|
                    0 <= a < n && 0 <= b < n && #[trigger] labels@[a] == #[trigger] labels@[b]
                        ==> same_house(recs, a, b),
                forall|a: int, b: int|
                    (0 <= a < i && a < b < n || a == i && i < b < j) && overlap(
                        recs[a].bounds,
                        recs[b].bounds,
                    ) ==> #[trigger] labels@[a] == #[trigger] labels@[b],
            decreases n - j,
        {
            if rects_connect(records[i].bounds, records[j].bounds) && labels[i] != labels[j] {
                let la: usize = labels[i];
                let lb: usize = labels[j];
                let ghost before = labels@;
                let mut k: usize = 0;
                while k < n
                    invariant
                        n == labels@.len(),
                        before.len() == n,
                        k <= n,
                        forall|a: int|
                            0 <= a < n ==> #[trigger] labels@[a] == if a < k && before[a] == lb {
                                la
                            } else {
                                before[a]
                            },
                    decreases n - k,
                {
                    if labels[k] == lb {
                        labels[k] = la;
                    }
                    k += 1;
                }
                proof {
                    lemma_same_house(recs);
                    lemma_reaches_self(step, i as int);
                    lemma_reaches_step(step, i as int, i as int, j as int);
                    assert(same_house(recs, i as int, j as int));
                    assert forall|a: int, b: int|
                        0 <= a < n && 0 <= b < n && #[trigger] labels@[a]
                            == #[trigger] labels@[b] implies same_house(recs, a, b) by {
                        if before[a] == lb && before[b] == la {
                            assert(before[a] == before[j as int]);
                            assert(before[b] == before[i as int]);
                            assert(same_house(recs, a, j as int));
                            assert(same_house(recs, j as int, i as int));
                            assert(same_house(recs, a, i as int));
                            assert(same_house(recs, i as int, b));
                        } else if before[a] == la && before[b] == lb {
                            assert(before[a] == before[i as int]);
                            assert(before[b] == before[j as int]);
                            assert(same_house(recs, a, i as int));
                            assert(same_house(recs, a, j as int));
                            assert(same_house(recs, j as int, b));
                        } else {
                            assert(before[a] == before[b]);
                        }
                    }
                    assert forall|a: int, b: int|
                        (0 <= a < i && a < b < n || a == i && i < b < j + 1) && overlap(
                            recs[a].bounds,
                            recs[b].bounds,
                        ) implies #[trigger] labels@[a] == #[trigger] labels@[b] by {
                        if !(a == i && b == j) {
                            assert(before[a] == before[b]);
                        }
                    }
                }
            }
            j += 1;
        }
        i += 1;
    }
    proof {
        assert forall|a: int, b: int|
            0 <= a < labels@.len() && 0 <= b < labels@.len() && same_house(
                recs,
                a,
                b,
            ) implies #[trigger] labels@[a] == #[trigger] labels@[b] by {
            let inside = |p: int| 0 <= p < n && labels@[p] == labels@[a];
            assert forall|p: int, q: int| inside(p) && #[trigger] step(p, q) implies inside(q) by {
                if p < q {
                    assert(labels@[p] == labels@[q]);
                } else if q < p {
                    assert(labels@[q] == labels@[p]);
                }
            }
            lemma_closed_set_holds_reachable(step, inside, a, b);
        }
    }
    labels
}

fn min_of(a: i32, b: i32) -> (m: i32)
    ensures
        m == if a <= b {
            a
        } else {
            b
        },
{
    if a <= b {
        a
    } else {
        b
    }
}

fn max_of(a: i32, b: i32) -> (m: i32)
    ensures
        m == if a <= b {
            b
        } else {
            a
        },
{
    if a <= b {
        b
    } else {
        a
    }
}

fn house_of(rects: Vec<Room>) -> (house: House)
    requires
        rects@.len() > 0,
        forall|i: int| 0 <= i < rects@.len() ==> proper(#[trigger] rects@[i], 46340),
    ensures
        built_from(house, rects@),
        0 <= house.x0 <= house.x1 < 46340,
        0 <= house.z0 <= house.z1 < 46340,
        0 <= house.footprint_area,
{
    let first: Room = rects[0];
    let mut x0: i32 = first.x0;
    let mut z0: i32 = first.z0;
    let mut x1: i32 = first.x1;
    let mut z1: i32 = first.z1;
    let mut k: usize = 1;
    let ghost mut at: (int, int, int, int) = (0, 0, 0, 0);
    while k < rects.len()
        invariant
            1 <= k <= rects@.len(),
            forall|i: int| 0 <= i < rects@.len() ==> proper(#[trigger] rects@[i], 46340),
            forall|i: int|
                0 <= i < k ==> x0 <= (#[trigger] rects@[i]).x0 && rects@[i].x1 <= x1 && z0
                    <= rects@[i].z0 && rects@[i].z1 <= z1,
            0 <= at.0 < k && rects@[at.0].x0 == x0,
            0 <= at.1 < k && rects@[at.1].z0 == z0,
            0 <= at.2 < k && rects@[at.2].x1 == x1,
            0 <= at.3 < k && rects@[at.3].z1 == z1,
        decreases rects@.len() - k,
    {
        let r: Room = rects[k];
        proof {
            at = (
                if r.x0 < x0 { k as int } else { at.0 },
                if r.z0 < z0 { k as int } else { at.1 },
                if r.x1 > x1 { k as int } else { at.2 },
                if r.z1 > z1 { k as int } else { at.3 },
            );
        }
        x0 = min_of(x0, r.x0);
        z0 = min_of(z0, r.z0);
        x1 = max_of(x1, r.x1);
        z1 = max_of(z1, r.z1);
        k += 1;
    }
    assert(proper(rects@[at.0], 46340));
    assert(proper(rects@[at.1], 46340));
    assert(proper(rects@[at.2], 46340));
    assert(proper(rects@[at.3], 46340));
    assert(proper(rects@[0], 46340));
    let ghost inside = |x: int, z: int| union_has(rects@, x, z);
    let test = |x: i32, z: i32| -> (b: bool)
        ensures
            b == union_has(rects@, x as int, z as int),
        { union_contains(rects.as_slice(), x, z) };
    proof {
        let w = x1 - x0 + 1;
        let h = z1 - z0 + 1;
        assert(w * h <= 46340 * 46340) by (nonlinear_arith)
            requires
                0 <= w <= 46340,
                0 <= h <= 46340,
        ;
        lemma_box_bound(inside, x0 as int, z0 as int, x1 + 1, z1 + 1);
        assert(follows(test, inside));
    }
    let area: i32 = count_region_area(x0, z0, x1, z1, test);
    House { rects, x0, z0, x1, z1, footprint_area: area, entry: None, entry2: None }
}

/// Group overlapping subseed rects into whole houses.
pub fn cluster_houses(records: &[RoomRecord]) -> (houses: Vec<House>)
    requires
        forall|i: int| 0 <= i < records@.len() ==> proper((#[trigger] records@[i]).bounds, 46340),
    ensures
        clustered(records@, houses@),
        forall|n: int, h: int|
            (forall|i: int|
                0 <= i < records@.len() ==> proper((#[trigger] records@[i]).bounds, n)) && 0 <= h
                < houses@.len() ==> #[trigger] house_fits(houses@[h], n),
{
    let labels = label_houses(records);
    let ghost recs = records@;
    let n: usize = records.len();
    let mut houses: Vec<House> = Vec::new();
    let mut i: usize = 0;
    proof {
        lemma_same_house(recs);
    }
    while i < n
        invariant
            n == records@.len(),
            recs == records@,
            i <= n,
            labels@.len() == n,
            forall|a: int, b: int|
                0 <= a < n && 0 <= b < n ==> (#[trigger] labels@[a] == #[trigger] labels@[b]
                    <==> same_house(recs, a, b)),
            forall|i: int| 0 <= i < records@.len() ==> proper((#[trigger] records@[i]).bounds, 46340),
            houses@.len() == leaders(recs, i as nat).len(),
            forall|h: int|
                0 <= h < houses@.len() ==> built_from(
                    #[trigger] houses@[h],
                    members(recs, leaders(recs, i as nat)[h], n as nat),
                ) && houses@[h].footprint_area >= 0,
        decreases n - i,
    {
        let mut first: bool = true;
        let mut k: usize = 0;
        while k < i
            invariant
                n == labels@.len(),
                i < n,
                k <= i,
                recs == records@,
                n == records@.len(),
                forall|a: int, b: int|
                    0 <= a < n && 0 <= b < n ==> (#[trigger] labels@[a] == #[trigger] labels@[b]
                        <==> same_house(recs, a, b)),
                first == forall|a: int| 0 <= a < k ==> !#[trigger] same_house(recs, a, i as int),
            decreases i - k,
        {
            if labels[k] == labels[i] {
                first = false;
                assert(same_house(recs, k as int, i as int));
            }
            k += 1;
        }
        assert(first == leads(recs, i as int));
        if first {
            let mut rects: Vec<Room> = Vec::new();
            let mut m: usize = 0;
            proof {
                lemma_reaches_self(overlap_step(recs), i as int);
            }
            while m < n
                invariant
                    n == labels@.len(),
                    i < n,
                    m <= n,
                    recs == records@,
                    n == records@.len(),
                    forall|a: int, b: int|
                        0 <= a < n && 0 <= b < n ==> (#[trigger] labels@[a]
                            == #[trigger] labels@[b] <==> same_house(recs, a, b)),
                    forall|i: int|
                        0 <= i < records@.len() ==> proper((#[trigger] records@[i]).bounds, 46340),
                    rects@ == members(recs, i as int, m as nat),
                    forall|r: int| 0 <= r < rects@.len() ==> proper(#[trigger] rects@[r], 46340),
                    m > i ==> rects@.len() > 0,
                    same_house(recs, i as int, i as int),
                decreases n - m,
            {
                if labels[i] == labels[m] {
                    rects.push(records[m].bounds);
                }
                m += 1;
            }
            houses.push(house_of(rects));
        }
        i += 1;
    }
    proof {
        let firsts = leaders(recs, n as nat);
        assert forall|size: int, h: int|
            (forall|i: int|
                0 <= i < records@.len() ==> proper((#[trigger] records@[i]).bounds, size)) && 0
                <= h < houses@.len() implies #[trigger] house_fits(houses@[h], size) by {
            let rects = members(recs, firsts[h], n as nat);
            assert(built_from(houses@[h], rects));
            lemma_members_proper(recs, firsts[h], n as nat, size);
        }
    }
    houses
}

proof fn lemma_members_proper(records: Seq<RoomRecord>, lead: int, n: nat, size: int)
    requires
        n <= records.len(),
        forall|i: int| 0 <= i < records.len() ==> proper((#[trigger] records[i]).bounds, size),
    ensures
        forall|r: int|
            0 <= r < members(records, lead, n).len() ==> proper(
                #[trigger] members(records, lead, n)[r],
                size,
            ),
    decreases n,
{
    if n > 0 {
        lemma_members_proper(records, lead, (n - 1) as nat, size);
        let all = members(records, lead, n);
        let rest = members(records, lead, (n - 1) as nat);
        assert forall|r: int| 0 <= r < all.len() implies proper(#[trigger] all[r], size) by {
            if r < rest.len() {
                assert(all[r] == rest[r]);
            } else {
                assert(all[r] == records[n - 1].bounds);
            }
        }
    }
}

/// Whether the rects were grouped into houses.
pub open spec fn houses_clustered(before: MapDraft, after: MapDraft) -> bool {
    &&& after == (MapDraft { houses: after.houses, ..before })
    &&& clustered(before.room_records@, after.houses@)
}

impl MapDraft {
    pub fn step_cluster_houses(&mut self)
        requires
            old(self).wf(),
            forall|i: int|
                0 <= i < old(self).room_records@.len() ==> proper(
                    (#[trigger] old(self).room_records@[i]).bounds,
                    old(self).size as int,
                ),
        ensures
            final(self).wf(),
            houses_clustered(*old(self), *final(self)),
    {
        self.houses = cluster_houses(self.room_records.as_slice());
    }
}

} // verus!
