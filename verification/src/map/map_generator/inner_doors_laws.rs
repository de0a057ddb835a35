//! The inner-door step, and what it promises of every house.
use vstd::prelude::*;

use crate::map::map_generator::draft::{tile_at, Cells, MapDraft, Room, RoomRecord};
use crate::map::map_generator::house::{house_fits, House};
use crate::map::map_generator::step_door::same_tiles;
use crate::map::map_generator::step_house_doors::{
    lemma_opens_only_steps, lemma_same_opens_only, opens_only,
};
use crate::map::map_generator::step_houses::{
    clustered, leaders, leads, members, overlap, overlap_step, proper, same_house,
};
use crate::map::map_generator::step_inner_doors::{
    all_joined, connect_house_rooms, indoor_step, joined_rooms_stay_joined, room_cell, rooms_joined,
    slabs_on, starts_at,
};
use crate::map::search::{adjacent, tile_distance, Tile};
use crate::reach::{
    lemma_closed_set_holds_reachable, lemma_reaches_self, lemma_reaches_step,
    lemma_reaches_symmetric, lemma_reaches_transitive, reaches,
};

verus! {

/// Doors were opened house by house, and the rooms of every house are joined in the end.
pub open spec fn houses_joined(
    states: Seq<Cells>,
    houses: Seq<House>,
    n: int,
    after: Cells,
) -> bool {
    forall|i: int|
        0 <= i < n ==> rooms_joined(states[i], states[i + 1], #[trigger] houses[i]) && (
        houses[i].entry is Some ==> forall|s: Tile|
            starts_at(states[i], houses[i], Some(s)) ==> #[trigger] all_joined(after, houses[i], s))
}

/// What can be reached in a house while its first rooms are joined can be reached later.
proof fn lemma_start_is_unique(cells: Cells, house: House, s: Tile, t: Tile)
    requires
        starts_at(cells, house, Some(s)),
        starts_at(cells, house, Some(t)),
    ensures
        s == t,
{
}

/// Whether the rooms of all houses were joined.
pub open spec fn inner_doors_placed(before: MapDraft, after: MapDraft) -> bool {
    &&& after == (MapDraft {
        cells: after.cells,
        rng: after.rng,
        ..before
    })
    &&& opens_only(before.cells, after.cells)
    &&& exists|states: Seq<Cells>| #[trigger]
        crate::map::map_generator::step_inner_walls::leads(
            states,
            before.cells,
            after.cells,
            before.houses@.len() as int,
        ) && houses_joined(
            states,
            before.houses@,
            before.houses@.len() as int,
            after.cells,
        )
}

impl MapDraft {
    /// Opens doors in inner walls until, in every house with a doorway, no room is cut off.
    pub fn step_place_inner_doors(&mut self)
        requires
            old(self).wf(),
            forall|i: int|
                0 <= i < old(self).houses@.len() ==> entry_near(#[trigger] old(self).houses@[i]),
        ensures
            final(self).wf(),
            inner_doors_placed(*old(self), *final(self)),
    {
        let ghost mut states: Seq<Cells> = seq![self.cells];
        let mut idx: usize = 0;
        proof {
            assert(same_tiles(self.cells, self.cells));
            lemma_same_opens_only(self.cells, self.cells);
        }
        while idx < self.houses.len()
            invariant
                self.wf(),
                *self == (MapDraft { cells: self.cells, rng: self.rng, ..*old(self) }),
                idx <= self.houses@.len(),
                forall|i: int|
                    0 <= i < self.houses@.len() ==> entry_near(#[trigger] self.houses@[i]),
                crate::map::map_generator::step_inner_walls::leads(
                    states,
                    old(self).cells,
                    self.cells,
                    idx as int,
                ),
                opens_only(old(self).cells, self.cells),
                houses_joined(states, self.houses@, idx as int, self.cells),
            decreases self.houses@.len() - idx,
        {
            let ghost before = self.cells;
            let ghost house = self.houses@[idx as int];
            assert(house_fits(self.houses@[idx as int], self.size as int));
            assert(entry_near(self.houses@[idx as int]));
            connect_house_rooms(&mut self.cells, &self.houses[idx], &mut self.rng);
            proof {
                let after = self.cells;
                assert(opens_only(before, after)) by {
                    if same_tiles(before, after) {
                        lemma_same_opens_only(before, after);
                    }
                }
                lemma_opens_only_steps(old(self).cells, before, after);
                let old_states = states;
                states = states.push(after);
                assert forall|i: int| 0 <= i < idx + 1 implies rooms_joined(
                    states[i],
                    states[i + 1],
                    #[trigger] self.houses@[i],
                ) && (self.houses@[i].entry is Some ==> forall|s: Tile|
                    starts_at(states[i], self.houses@[i], Some(s)) ==> #[trigger] all_joined(
                        after,
                        self.houses@[i],
                        s,
                    )) by {
                    let h = self.houses@[i];
                    if i < idx {
                        assert(rooms_joined(old_states[i], old_states[i + 1], h));
                        assert forall|s: Tile| h.entry is Some && starts_at(states[i], h, Some(s)) implies #[trigger] all_joined(
                            after,
                            h,
                            s,
                        ) by {
                            assert(all_joined(before, h, s));
                            joined_rooms_stay_joined(before, after, h, s);
                        }
                    } else {
                        assert forall|s: Tile| h.entry is Some && starts_at(before, h, Some(s)) implies #[trigger] all_joined(
                            after,
                            h,
                            s,
                        ) by {
                            let t = choose|t: Option<Tile>| #[trigger]
                                starts_at(before, h, t) && match t {
                                    Some(t) => opens_only(before, after) && all_joined(after, h, t)
                                        && slabs_on(tile_at(after, t.0 as int, t.1 as int)) is Some,
                                    None => same_tiles(before, after),
                                };
                            if let Some(u) = t {
                                lemma_start_is_unique(before, h, s, u);
                            } else {
                                lemma_start_is_found(before, h, s);
                            }
                        }
                    }
                }
            }
            idx += 1;
        }
    }
}

proof fn lemma_start_is_found(cells: Cells, house: House, s: Tile)
    requires
        starts_at(cells, house, Some(s)),
    ensures
        !starts_at(cells, house, None),
{
    if starts_at(cells, house, None) {
        assert(!room_cell(cells, house, s));
    }
}

/// Whether the doorway of the house, if it has one, is near the grid.
pub open spec fn entry_near(house: House) -> bool {
    house.entry matches Some(ep) ==> crate::map::map_generator::step_door::near_grid(
        ep.wall_x as int,
        ep.wall_z as int,
    )
}

/// Steps between rects of the list that share a cell.
pub open spec fn rect_step(rects: Seq<Room>) -> spec_fn(Room, Room) -> bool {
    |a: Room, b: Room| rects.contains(a) && rects.contains(b) && overlap(a, b)
}

/// Whether a chain of overlapping rects of the list joins any two of them, and none is empty.
pub open spec fn in_one_piece(rects: Seq<Room>) -> bool {
    &&& forall|i: int| 0 <= i < rects.len() ==> proper(#[trigger] rects[i], 46340)
    &&& forall|i: int, j: int|
        0 <= i < rects.len() && 0 <= j < rects.len() ==> reaches(
            rect_step(rects),
            #[trigger] rects[i],
            #[trigger] rects[j],
        )
}

proof fn lemma_member(records: Seq<RoomRecord>, lead: int, n: nat, k: int)
    requires
        0 <= k < n <= records.len(),
        same_house(records, lead, k),
    ensures
        members(records, lead, n).contains(records[k].bounds),
    decreases n,
{
    let all = members(records, lead, n);
    if k == n - 1 {
        assert(all[all.len() - 1] == records[k].bounds);
    } else {
        lemma_member(records, lead, (n - 1) as nat, k);
        let rest = members(records, lead, (n - 1) as nat);
        let i = choose|i: int| 0 <= i < rest.len() && rest[i] == records[k].bounds;
        assert(all[i] == records[k].bounds);
    }
}

pub proof fn lemma_member_origin(records: Seq<RoomRecord>, lead: int, n: nat, i: int) -> (k: int)
    requires
        n <= records.len(),
        0 <= i < members(records, lead, n).len(),
    ensures
        0 <= k < n,
        same_house(records, lead, k),
        records[k].bounds == members(records, lead, n)[i],
    decreases n,
{
    let rest = members(records, lead, (n - 1) as nat);
    if same_house(records, lead, n - 1) && i == rest.len() {
        n - 1
    } else {
        lemma_member_origin(records, lead, (n - 1) as nat, i)
    }
}

/// A house that came from clustering rects is in one piece.
pub proof fn clustered_houses_are_in_one_piece(
    records: Seq<RoomRecord>,
    houses: Seq<House>,
    h: int,
)
    requires
        clustered(records, houses),
        0 <= h < houses.len(),
        forall|i: int| 0 <= i < records.len() ==> proper((#[trigger] records[i]).bounds, 46340),
    ensures
        in_one_piece(houses[h].rects@),
{
    let n = records.len();
    let lead = leaders(records, n)[h];
    let rects = members(records, lead, n);
    assert(houses[h].rects@ == rects);
    let step = rect_step(rects);
    lemma_leader_range(records, n, h);
    let hub = records[lead].bounds;
    lemma_reaches_self(overlap_step(records), lead);
    lemma_reaches_self(step, hub);
    let inside = |k: int|
        0 <= k < n && same_house(records, lead, k) && reaches(step, hub, records[k].bounds);
    assert forall|p: int, q: int| inside(p) && #[trigger] overlap_step(records)(p, q) implies inside(
        q,
    ) by {
        lemma_reaches_step(overlap_step(records), lead, p, q);
        lemma_member(records, lead, n, p);
        lemma_member(records, lead, n, q);
        assert(step(records[p].bounds, records[q].bounds));
        lemma_reaches_step(step, hub, records[p].bounds, records[q].bounds);
    }
    assert forall|i: int| 0 <= i < rects.len() implies proper(#[trigger] rects[i], 46340) && reaches(
        step,
        hub,
        rects[i],
    ) by {
        let k = lemma_member_origin(records, lead, n, i);
        lemma_closed_set_holds_reachable(overlap_step(records), inside, lead, k);
    }
    assert forall|p: Room, q: Room| #[trigger] step(p, q) implies step(q, p) by {}
    assert forall|i: int, j: int| 0 <= i < rects.len() && 0 <= j < rects.len() implies reaches(
        step,
        #[trigger] rects[i],
        #[trigger] rects[j],
    ) by {
        lemma_reaches_symmetric(step, hub, rects[i]);
        lemma_reaches_transitive(step, rects[i], hub, rects[j]);
    }
}

pub proof fn lemma_leader_range(records: Seq<RoomRecord>, n: nat, h: int)
    requires
        n <= records.len(),
        0 <= h < leaders(records, n).len(),
    ensures
        0 <= leaders(records, n)[h] < n,
    decreases n,
{
    let rest = leaders(records, (n - 1) as nat);
    if h < rest.len() {
        lemma_leader_range(records, (n - 1) as nat, h);
    }
}

/// Inside one rect whose cells can all be walked, joined rooms reach from cell to cell.
proof fn lemma_rect_is_joined(cells: Cells, house: House, s: Tile, rect: Room, p: Tile, q: Tile)
    requires
        all_joined(cells, house, s),
        house.rects@.contains(rect),
        rect.has(p.0 as int, p.1 as int),
        rect.has(q.0 as int, q.1 as int),
        forall|t: Tile| #[trigger] house.has(t.0 as int, t.1 as int) ==> room_cell(cells, house, t),
        reaches(indoor_step(cells, house), s, p),
    ensures
        reaches(indoor_step(cells, house), s, q),
    decreases tile_distance(p, q),
{
    if p != q {
        let next: Tile = if p.0 < q.0 {
            ((p.0 + 1) as i32, p.1)
        } else if p.0 > q.0 {
            ((p.0 - 1) as i32, p.1)
        } else if p.1 < q.1 {
            (p.0, (p.1 + 1) as i32)
        } else {
            (p.0, (p.1 - 1) as i32)
        };
        let k = choose|k: int| 0 <= k < house.rects@.len() && house.rects@[k] == rect;
        assert(house.rects@[k].has(next.0 as int, next.1 as int));
        assert(house.has(next.0 as int, next.1 as int));
        assert(room_cell(cells, house, next));
        assert(adjacent(p, next));
        lemma_rect_is_joined(cells, house, s, rect, next, q);
    }
}

/// In a house that is in one piece and can be walked everywhere, once its rooms are joined,
/// every cell can be reached from any cell of the house that the flood started at.
pub proof fn every_room_is_reachable(cells: Cells, house: House, s: Tile, t: Tile)
    requires
        in_one_piece(house.rects@),
        all_joined(cells, house, s),
        forall|u: Tile| #[trigger] house.has(u.0 as int, u.1 as int) ==> room_cell(cells, house, u),
        house.has(s.0 as int, s.1 as int),
        house.has(t.0 as int, t.1 as int),
    ensures
        reaches(indoor_step(cells, house), s, t),
{
    let rects = house.rects@;
    let walk = indoor_step(cells, house);
    let step = rect_step(rects);
    lemma_reaches_self(walk, s);
    let i = choose|i: int|
        0 <= i < rects.len() && (#[trigger] rects[i]).has(s.0 as int, s.1 as int);
    let j = choose|j: int|
        0 <= j < rects.len() && (#[trigger] rects[j]).has(t.0 as int, t.1 as int);
    let covered = |r: Room|
        rects.contains(r) && forall|u: Tile|
            #![trigger r.has(u.0 as int, u.1 as int)]
            r.has(u.0 as int, u.1 as int) ==> reaches(walk, s, u);
    assert(rects.contains(rects[i]));
    assert forall|u: Tile| rects[i].has(u.0 as int, u.1 as int) implies reaches(walk, s, u) by {
        lemma_rect_is_joined(cells, house, s, rects[i], s, u);
    }
    assert(covered(rects[i]));
    assert forall|p: Room, q: Room| covered(p) && #[trigger] step(p, q) implies covered(q) by {
        let kp = choose|k: int| 0 <= k < rects.len() && rects[k] == p;
        let kq = choose|k: int| 0 <= k < rects.len() && rects[k] == q;
        assert(proper(rects[kp], 46340) && proper(rects[kq], 46340));
        let shared: Tile = (
            if p.x0 >= q.x0 { p.x0 } else { q.x0 },
            if p.z0 >= q.z0 { p.z0 } else { q.z0 },
        );
        assert(p.has(shared.0 as int, shared.1 as int));
        assert(q.has(shared.0 as int, shared.1 as int));
        assert forall|u: Tile| #[trigger] q.has(u.0 as int, u.1 as int) implies reaches(walk, s, u) by {
            lemma_rect_is_joined(cells, house, s, q, shared, u);
        }
    }
    assert(reaches(step, rects[i], rects[j]));
    lemma_closed_set_holds_reachable(step, covered, rects[i], rects[j]);
    assert(rects[j].has(t.0 as int, t.1 as int));
}

} // verus!
