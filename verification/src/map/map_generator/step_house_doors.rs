//! The door step: a main doorway for every house, and a second one for about half of them.
use vstd::prelude::*;

use crate::map::map_generator::draft::{tile_at, Cells, DraftTile, MapDraft};
use crate::map::map_generator::house::{house_fits, House};
use crate::map::map_generator::step_door::{
    beside, companion, cut, door_placed, door_site, edge_delta, in_a_house, in_other_house,
    is_edge, opened_at, place_door, same_tiles, valid_site,
};
use crate::map::map_generator::step_inner_walls::leads;
use crate::map::map_generator::types::HouseEntrypoint;
use crate::rng;

verus! {

/// Whether a tile came from another by taking out slabs or a pillar.
pub open spec fn looser(before: DraftTile, after: DraftTile) -> bool {
    match before {
        DraftTile::Wall(b) => match after {
            DraftTile::Wall(a) => a & !b == 0,
            _ => after == DraftTile::Open,
        },
        DraftTile::Corner(_) => after == before || after == DraftTile::Open,
        _ => after == before,
    }
}

/// Whether the grids differ only where slabs and pillars were taken out.
pub open spec fn opens_only(before: Cells, after: Cells) -> bool {
    forall|x: int, z: int| looser(tile_at(before, x, z), #[trigger] tile_at(after, x, z))
}

proof fn lemma_looser_steps(a: DraftTile, b: DraftTile, c: DraftTile)
    requires
        looser(a, b),
        looser(b, c),
    ensures
        looser(a, c),
{
    if let DraftTile::Wall(x) = a {
        if let DraftTile::Wall(y) = b {
            if let DraftTile::Wall(w) = c {
                assert(y & !x == 0 && w & !y == 0 ==> w & !x == 0) by (bit_vector);
            }
        }
    }
}

/// Taking out slabs twice is taking out slabs.
pub proof fn lemma_opens_only_steps(a: Cells, b: Cells, c: Cells)
    requires
        opens_only(a, b),
        opens_only(b, c),
    ensures
        opens_only(a, c),
{
    assert forall|x: int, z: int| looser(tile_at(a, x, z), #[trigger] tile_at(c, x, z)) by {
        assert(looser(tile_at(a, x, z), tile_at(b, x, z)));
        lemma_looser_steps(tile_at(a, x, z), tile_at(b, x, z), tile_at(c, x, z));
    }
}

/// Grids with the same tiles differ nowhere.
pub proof fn lemma_same_opens_only(a: Cells, b: Cells)
    requires
        same_tiles(a, b),
    ensures
        opens_only(a, b),
{
    assert forall|x: int, z: int| looser(tile_at(a, x, z), #[trigger] tile_at(b, x, z)) by {
        assert(tile_at(a, x, z) == tile_at(b, x, z));
        if let DraftTile::Wall(w) = tile_at(a, x, z) {
            assert(w & !w == 0) by (bit_vector);
        }
    }
}

proof fn lemma_opened_opens_only(a: Cells, b: Cells, x: int, z: int, edge: u8)
    requires
        opened_at(a, b, x, z, edge),
    ensures
        opens_only(a, b),
{
    assert forall|u: int, w: int| looser(tile_at(a, u, w), #[trigger] tile_at(b, u, w)) by {
        if let DraftTile::Wall(m) = tile_at(a, u, w) {
            assert(m & !m == 0) by (bit_vector);
            assert((m & !edge) & !m == 0) by (bit_vector);
        }
    }
}

/// Placing a door takes out slabs and nothing else.
pub proof fn lemma_door_opens_only(
    a: Cells,
    b: Cells,
    houses: Seq<House>,
    h: int,
    ep: Option<HouseEntrypoint>,
)
    requires
        door_placed(a, b, houses, h, ep),
    ensures
        opens_only(a, b),
{
    match ep {
        None => lemma_same_opens_only(a, b),
        Some(ep) => {
            let mid = choose|mid: Cells|
                {
                    &&& #[trigger] opened_at(
                        a,
                        mid,
                        ep.wall_x as int,
                        ep.wall_z as int,
                        ep.outward_edge,
                    )
                    &&& match companion(
                        mid,
                        houses,
                        h,
                        ep.wall_x as int,
                        ep.wall_z as int,
                        ep.outward_edge,
                    ) {
                        Some(c) => {
                            &&& ep.wall2 matches Some(w) && w.0 == c.0 && w.1 == c.1
                            &&& opened_at(mid, b, c.0, c.1, ep.outward_edge)
                        },
                        None => ep.wall2 is None && same_tiles(mid, b),
                    }
                };
            lemma_opened_opens_only(a, mid, ep.wall_x as int, ep.wall_z as int, ep.outward_edge);
            match companion(
                mid,
                houses,
                h,
                ep.wall_x as int,
                ep.wall_z as int,
                ep.outward_edge,
            ) {
                Some(c) => lemma_opened_opens_only(mid, b, c.0, c.1, ep.outward_edge),
                None => lemma_same_opens_only(mid, b),
            }
            lemma_opens_only_steps(a, mid, b);
        },
    }
}

/// Whether the two lists hold the same footprints.
pub open spec fn same_footprints(a: Seq<House>, b: Seq<House>) -> bool {
    a.len() == b.len() && forall|i: int|
        0 <= i < a.len() ==> (#[trigger] a[i]).same_footprint(b[i])
}

/// A valid door site stays valid when slabs are taken out elsewhere or at the site itself,
/// and whatever doorways the houses are given.
pub proof fn valid_sites_stay_valid(
    before: Cells,
    after: Cells,
    houses: Seq<House>,
    later: Seq<House>,
    h: int,
    x: int,
    z: int,
    edge: u8,
)
    requires
        opens_only(before, after),
        same_footprints(houses, later),
        0 <= h < houses.len(),
        crate::map::map_generator::draft::sound(after, after@.len() as int),
        valid_site(before, houses, h, x, z, edge),
    ensures
        valid_site(after, later, h, x, z, edge),
{
    let (dx, dz) = edge_delta(edge);
    assert(houses[h].same_footprint(later[h]));
    assert(looser(tile_at(before, x - dx, z - dz), tile_at(after, x - dx, z - dz)));
    assert(looser(tile_at(before, x + dx, z + dz), tile_at(after, x + dx, z + dz)));
    assert(looser(
        tile_at(before, x + 2 * dx, z + 2 * dz),
        tile_at(after, x + 2 * dx, z + 2 * dz),
    ));
    assert(looser(tile_at(before, x, z), tile_at(after, x, z)));
    if in_a_house(later, x + dx, z + dz) {
        let i = choose|i: int| 0 <= i < later.len() && (#[trigger] later[i]).has(x + dx, z + dz);
        assert(houses[i].same_footprint(later[i]));
        assert(houses[i].has(x + dx, z + dz));
    }
    if in_other_house(later, h, x + 2 * dx, z + 2 * dz) {
        let i = choose|i: int|
            0 <= i < later.len() && i != h && (#[trigger] later[i]).has(x + 2 * dx, z + 2 * dz);
        assert(houses[i].same_footprint(later[i]));
        assert(houses[i].has(x + 2 * dx, z + 2 * dz));
    }
    if let DraftTile::Wall(b) = tile_at(before, x, z) {
        if let DraftTile::Wall(a) = tile_at(after, x, z) {
            assert(b & !edge == 0 && a & !b == 0 && a != 0 ==> a & edge != 0 && a & !edge == 0)
                by (bit_vector);
        }
    }
}

proof fn lemma_door_placed_footprints(
    a: Cells,
    b: Cells,
    houses: Seq<House>,
    later: Seq<House>,
    h: int,
    ep: Option<HouseEntrypoint>,
)
    requires
        same_footprints(houses, later),
        0 <= h < houses.len(),
        door_placed(a, b, houses, h, ep),
    ensures
        door_placed(a, b, later, h, ep),
{
    lemma_sites_footprints(houses, later);
    match ep {
        None => {
            assert forall|x: int, z: int, edge: u8| !#[trigger]
                door_site(a, later, h, x, z, edge) by {
                assert(!door_site(a, houses, h, x, z, edge));
                assert(valid_site(a, houses, h, x, z, edge) == valid_site(a, later, h, x, z, edge));
            }
        },
        Some(ep) => {
            let mid = choose|mid: Cells|
                {
                    &&& #[trigger] opened_at(
                        a,
                        mid,
                        ep.wall_x as int,
                        ep.wall_z as int,
                        ep.outward_edge,
                    )
                    &&& match companion(
                        mid,
                        houses,
                        h,
                        ep.wall_x as int,
                        ep.wall_z as int,
                        ep.outward_edge,
                    ) {
                        Some(c) => {
                            &&& ep.wall2 matches Some(w) && w.0 == c.0 && w.1 == c.1
                            &&& opened_at(mid, b, c.0, c.1, ep.outward_edge)
                        },
                        None => ep.wall2 is None && same_tiles(mid, b),
                    }
                };
            lemma_companion_footprints(
                mid,
                houses,
                later,
                h,
                ep.wall_x as int,
                ep.wall_z as int,
                ep.outward_edge,
            );
            lemma_companion_footprints(
                a,
                houses,
                later,
                h,
                ep.wall_x as int,
                ep.wall_z as int,
                ep.outward_edge,
            );
            assert(opened_at(a, mid, ep.wall_x as int, ep.wall_z as int, ep.outward_edge));
            assert(cut(a, b, later, h, ep));
            assert(valid_site(
                a,
                houses,
                h,
                ep.wall_x as int,
                ep.wall_z as int,
                ep.outward_edge,
            ) == valid_site(a, later, h, ep.wall_x as int, ep.wall_z as int, ep.outward_edge));
            assert forall|x: int, z: int, edge: u8| #[trigger]
                door_site(a, later, h, x, z, edge) implies door_site(a, houses, h, x, z, edge)
                && crate::map::map_generator::step_door::widens(
                a,
                later,
                h,
                (x as i32, z as i32, edge),
            ) == crate::map::map_generator::step_door::widens(
                a,
                houses,
                h,
                (x as i32, z as i32, edge),
            ) by {
                assert(valid_site(a, houses, h, x, z, edge) == valid_site(a, later, h, x, z, edge));
                lemma_companion_footprints(
                    a,
                    houses,
                    later,
                    h,
                    (x as i32) as int,
                    (z as i32) as int,
                    edge,
                );
            }
        },
    }
}

proof fn lemma_sites_footprints(houses: Seq<House>, later: Seq<House>)
    requires
        same_footprints(houses, later),
    ensures
        forall|c: Cells, h: int, x: int, z: int, edge: u8|
            #![trigger valid_site(c, later, h, x, z, edge)]
            #![trigger valid_site(c, houses, h, x, z, edge)]
            0 <= h < houses.len() ==> valid_site(c, later, h, x, z, edge) == valid_site(
                c,
                houses,
                h,
                x,
                z,
                edge,
            ),
        forall|h: int, x: int, z: int|
            #![trigger later[h].has(x, z)]
            #![trigger houses[h].has(x, z)]
            0 <= h < houses.len() ==> later[h].has(x, z) == houses[h].has(x, z),
{
    assert forall|h: int, x: int, z: int|
        #![trigger later[h].has(x, z)]
        #![trigger houses[h].has(x, z)]
        0 <= h < houses.len() implies later[h].has(x, z) == houses[h].has(x, z) by {
        assert(houses[h].same_footprint(later[h]));
    }
    assert forall|x: int, z: int|
        #![trigger in_a_house(later, x, z)]
        in_a_house(later, x, z) == in_a_house(houses, x, z) by {
        if in_a_house(later, x, z) {
            let i = choose|i: int| 0 <= i < later.len() && (#[trigger] later[i]).has(x, z);
            assert(houses[i].has(x, z));
        }
        if in_a_house(houses, x, z) {
            let i = choose|i: int| 0 <= i < houses.len() && (#[trigger] houses[i]).has(x, z);
            assert(later[i].has(x, z));
        }
    }
    assert forall|h: int, x: int, z: int|
        #![trigger in_other_house(later, h, x, z)]
        in_other_house(later, h, x, z) == in_other_house(houses, h, x, z) by {
        if in_other_house(later, h, x, z) {
            let i = choose|i: int|
                0 <= i < later.len() && i != h && (#[trigger] later[i]).has(x, z);
            assert(houses[i].has(x, z));
        }
        if in_other_house(houses, h, x, z) {
            let i = choose|i: int|
                0 <= i < houses.len() && i != h && (#[trigger] houses[i]).has(x, z);
            assert(later[i].has(x, z));
        }
    }
    assert forall|c: Cells, h: int, x: int, z: int, edge: u8|
        #![trigger valid_site(c, later, h, x, z, edge)]
        #![trigger valid_site(c, houses, h, x, z, edge)]
        0 <= h < houses.len() implies valid_site(c, later, h, x, z, edge) == valid_site(
        c,
        houses,
        h,
        x,
        z,
        edge,
    ) by {
        let (dx, dz) = edge_delta(edge);
        assert(in_a_house(later, x + dx, z + dz) == in_a_house(houses, x + dx, z + dz));
        assert(in_other_house(later, h, x + 2 * dx, z + 2 * dz) == in_other_house(
            houses,
            h,
            x + 2 * dx,
            z + 2 * dz,
        ));
        assert(later[h].has(x - dx, z - dz) == houses[h].has(x - dx, z - dz));
    }
}

proof fn lemma_companion_footprints(
    c: Cells,
    houses: Seq<House>,
    later: Seq<House>,
    h: int,
    x: int,
    z: int,
    edge: u8,
)
    requires
        same_footprints(houses, later),
        0 <= h < houses.len(),
    ensures
        companion(c, houses, h, x, z, edge) == companion(c, later, h, x, z, edge),
{
    lemma_sites_footprints(houses, later);
    let a = beside(x, z, edge, true);
    let b = beside(x, z, edge, false);
    assert(valid_site(c, later, h, a.0, a.1, edge) == valid_site(c, houses, h, a.0, a.1, edge));
    assert(valid_site(c, later, h, b.0, b.1, edge) == valid_site(c, houses, h, b.0, b.1, edge));
}

/// Whether the doorway of a house passes validation: a valid site with its walk tile.
pub open spec fn good_door(cells: Cells, houses: Seq<House>, h: int, ep: HouseEntrypoint) -> bool {
    &&& is_edge(ep.outward_edge)
    &&& ep.walk_x == ep.wall_x + edge_delta(ep.outward_edge).0
    &&& ep.walk_z == ep.wall_z + edge_delta(ep.outward_edge).1
    &&& 0 <= ep.wall_x <= 46340
    &&& 0 <= ep.wall_z <= 46340
    &&& valid_site(
        cells,
        houses,
        h,
        ep.wall_x as int,
        ep.wall_z as int,
        ep.outward_edge,
    )
}

/// Whether some state between `before` and `after` is the one in which the door was placed.
pub open spec fn door_history(
    before: Cells,
    after: Cells,
    houses: Seq<House>,
    h: int,
    ep: Option<HouseEntrypoint>,
) -> bool {
    exists|a: Cells, b: Cells| #[trigger]
        door_placed(a, b, houses, h, ep) && opens_only(before, a) && opens_only(b, after)
}

/// Whether house `i` got a main doorway at a site it had, unless it had none, and perhaps a
/// second one after that.
pub open spec fn doors_placed(
    before: Cells,
    after: Cells,
    was: House,
    houses: Seq<House>,
    i: int,
) -> bool {
    let now = houses[i];
    exists|placed: Option<HouseEntrypoint>|
        {
            &&& #[trigger] door_history(before, after, houses, i, placed)
            &&& now.entry == (if placed is Some {
                placed
            } else {
                was.entry
            })
            &&& now.entry2 == was.entry2 || placed is Some && now.entry2 is Some && door_history(
                before,
                after,
                houses,
                i,
                now.entry2,
            )
            &&& placed matches Some(ep) ==> good_door(after, houses, i, ep)
            &&& now.entry2 != was.entry2 ==> good_door(after, houses, i, now.entry2->0)
        }
}

proof fn lemma_placed_is_good(
    a: Cells,
    b: Cells,
    houses: Seq<House>,
    h: int,
    ep: HouseEntrypoint,
    n: int,
)
    requires
        0 <= h < houses.len(),
        house_fits(houses[h], n),
        n <= 46340,
        crate::map::map_generator::draft::sound(b, b@.len() as int),
        door_placed(a, b, houses, h, Some(ep)),
    ensures
        good_door(b, houses, h, ep),
{
    lemma_door_opens_only(a, b, houses, h, Some(ep));
    assert forall|i: int| 0 <= i < houses.len() implies (#[trigger] houses[i]).same_footprint(
        houses[i],
    ) by {}
    valid_sites_stay_valid(
        a,
        b,
        houses,
        houses,
        h,
        ep.wall_x as int,
        ep.wall_z as int,
        ep.outward_edge,
    );
    crate::map::map_generator::step_door::lemma_in_box(
        houses[h],
        n,
        ep.wall_x as int,
        ep.wall_z as int,
    );
}

/// What is known of house `i` stays known while other houses get their doors.
proof fn lemma_doors_later(
    start: Cells,
    before: Cells,
    after: Cells,
    was: House,
    houses: Seq<House>,
    later: Seq<House>,
    i: int,
)
    requires
        doors_placed(start, before, was, houses, i),
        opens_only(before, after),
        same_footprints(houses, later),
        0 <= i < houses.len(),
        later[i].entry == houses[i].entry,
        later[i].entry2 == houses[i].entry2,
        crate::map::map_generator::draft::sound(after, after@.len() as int),
    ensures
        doors_placed(start, after, was, later, i),
{
    let placed = choose|placed: Option<HouseEntrypoint>|
        {
            let now = houses[i];
            &&& #[trigger] door_history(start, before, houses, i, placed)
            &&& now.entry == (if placed is Some {
                placed
            } else {
                was.entry
            })
            &&& now.entry2 == was.entry2 || placed is Some && now.entry2 is Some && door_history(
                start,
                before,
                houses,
                i,
                now.entry2,
            )
            &&& placed matches Some(ep) ==> good_door(before, houses, i, ep)
            &&& now.entry2 != was.entry2 ==> good_door(before, houses, i, now.entry2->0)
        };
    lemma_history_later(start, before, after, houses, later, i, placed);
    if let Some(ep) = placed {
        valid_sites_stay_valid(
            before,
            after,
            houses,
            later,
            i,
            ep.wall_x as int,
            ep.wall_z as int,
            ep.outward_edge,
        );
    }
    if houses[i].entry2 != was.entry2 {
        lemma_history_later(start, before, after, houses, later, i, houses[i].entry2);
        let ep = houses[i].entry2->0;
        valid_sites_stay_valid(
            before,
            after,
            houses,
            later,
            i,
            ep.wall_x as int,
            ep.wall_z as int,
            ep.outward_edge,
        );
    }
}

proof fn lemma_history_later(
    start: Cells,
    before: Cells,
    after: Cells,
    houses: Seq<House>,
    later: Seq<House>,
    i: int,
    ep: Option<HouseEntrypoint>,
)
    requires
        door_history(start, before, houses, i, ep),
        opens_only(before, after),
        same_footprints(houses, later),
        0 <= i < houses.len(),
    ensures
        door_history(start, after, later, i, ep),
{
    let (a, b) = choose|a: Cells, b: Cells| #[trigger]
        door_placed(a, b, houses, i, ep) && opens_only(start, a) && opens_only(b, before);
    lemma_door_placed_footprints(a, b, houses, later, i, ep);
    lemma_opens_only_steps(b, before, after);
}

/// Whether house `i` became `now` while the grid changed from `a` to `b`: its main doorway was
/// placed where it had a site, perhaps a second one after that, and nothing else was changed.
pub open spec fn got_doors(a: Cells, b: Cells, houses: Seq<House>, i: int, now: House) -> bool {
    exists|mid: Cells, placed: Option<HouseEntrypoint>|
        {
            &&& #[trigger] door_placed(a, mid, houses, i, placed)
            &&& now.entry == (if placed is Some {
                placed
            } else {
                houses[i].entry
            })
            &&& same_tiles(mid, b) && now.entry2 == houses[i].entry2 || placed is Some
                && second_door(mid, b, houses, i, now)
        }
}

/// Whether house `i` was offered a second doorway.
pub open spec fn second_door(a: Cells, b: Cells, houses: Seq<House>, i: int, now: House) -> bool {
    exists|second: Option<HouseEntrypoint>| #[trigger]
        door_placed(a, b, houses, i, second) && now.entry2 == (if second is Some {
            second
        } else {
            houses[i].entry2
        })
}

/// Whether the houses got their doorways, one house after the other.
pub open spec fn house_doors_placed(before: MapDraft, after: MapDraft) -> bool {
    &&& after == (MapDraft {
        cells: after.cells,
        houses: after.houses,
        rng: after.rng,
        ..before
    })
    &&& opens_only(before.cells, after.cells)
    &&& same_footprints(before.houses@, after.houses@)
    &&& forall|i: int|
        0 <= i < after.houses@.len() ==> doors_placed(
            before.cells,
            after.cells,
            #[trigger] before.houses@[i],
            after.houses@,
            i,
        )
    &&& exists|states: Seq<Cells>| #[trigger]
        leads(states, before.cells, after.cells, before.houses@.len() as int) && forall|i: int|
            0 <= i < before.houses@.len() ==> got_doors(
                states[i],
                states[i + 1],
                before.houses@,
                i,
                #[trigger] after.houses@[i],
            )
}

impl MapDraft {
    /// A main doorway for every house that has a site for one; only sites that open onto
    /// road, not other houses. Doors are widened to 2 tiles when a valid neighbor along the
    /// wall run exists. About half of the houses get a second doorway.
    pub fn step_place_house_doors(&mut self)
        requires
            old(self).wf(),
        ensures
            final(self).wf(),
            house_doors_placed(*old(self), *final(self)),
    {
        let ghost start = self.cells;
        let ghost first = self.houses@;
        let mut index: usize = 0;
        let ghost mut states: Seq<Cells> = seq![start];
        proof {
            assert(same_tiles(start, start));
            lemma_same_opens_only(start, start);
        }
        while index < self.houses.len()
            invariant
                self.wf(),
                *self == (MapDraft {
                    cells: self.cells,
                    houses: self.houses,
                    rng: self.rng,
                    ..*old(self)
                }),
                start == old(self).cells,
                first == old(self).houses@,
                index <= self.houses@.len(),
                opens_only(start, self.cells),
                same_footprints(first, self.houses@),
                leads(states, start, self.cells, index as int),
                forall|i: int|
                    0 <= i < index ==> got_doors(
                        states[i],
                        states[i + 1],
                        first,
                        i,
                        #[trigger] self.houses@[i],
                    ),
                forall|i: int|
                    0 <= i < index ==> doors_placed(
                        start,
                        self.cells,
                        #[trigger] first[i],
                        self.houses@,
                        i,
                    ),
                forall|i: int|
                    index <= i < self.houses@.len() ==> (#[trigger] self.houses@[i]).entry
                        == first[i].entry && self.houses@[i].entry2 == first[i].entry2,
            decreases self.houses@.len() - index,
        {
            let ghost c0 = self.cells;
            let ghost h0 = self.houses@;
            let placed: Option<HouseEntrypoint> = place_door(
                &mut self.cells,
                &self.houses,
                index,
                &mut self.rng,
            );
            let ghost c1 = self.cells;
            proof {
                lemma_door_opens_only(c0, c1, h0, index as int, placed);
                lemma_opens_only_steps(start, c0, c1);
                if placed is Some {
                    lemma_placed_is_good(
                        c0,
                        c1,
                        h0,
                        index as int,
                        placed->0,
                        self.size as int,
                    );
                }
            }
            let mut second: Option<HouseEntrypoint> = None;
            let ghost mut offered: bool = false;
            if placed.is_some() {
                let roll: i32 = rng::range(&mut self.rng, 0, 1);
                if roll == 1 {
                    second = place_door(&mut self.cells, &self.houses, index, &mut self.rng);
                    proof {
                        offered = true;
                        lemma_door_opens_only(c1, self.cells, h0, index as int, second);
                        if second is Some {
                            lemma_placed_is_good(
                                c1,
                                self.cells,
                                h0,
                                index as int,
                                second->0,
                                self.size as int,
                            );
                        }
                    }
                } else {
                    proof {
                        assert(same_tiles(c1, self.cells));
                        lemma_same_opens_only(c1, self.cells);
                    }
                }
                self.houses[index].entry = placed;
                if second.is_some() {
                    self.houses[index].entry2 = second;
                }
            } else {
                proof {
                    assert(same_tiles(c1, self.cells));
                    lemma_same_opens_only(c1, self.cells);
                }
            }
            proof {
                let c2 = self.cells;
                let h2 = self.houses@;
                let hi = index as int;
                lemma_opens_only_steps(start, c1, c2);
                assert(same_footprints(h0, h2));
                assert(same_footprints(first, h2)) by {
                    assert forall|i: int| 0 <= i < first.len() implies (
                    #[trigger] first[i]).same_footprint(h2[i]) by {
                        assert(first[i].same_footprint(h0[i]));
                        assert(h0[i].same_footprint(h2[i]));
                    }
                }
                assert(house_fits(h0[hi], self.size as int));
                assert forall|i: int| 0 <= i < h2.len() implies house_fits(
                    #[trigger] h2[i],
                    self.size as int,
                ) by {
                    assert(house_fits(h0[i], self.size as int));
                    assert(h0[i].same_footprint(h2[i]));
                }
                lemma_opens_only_steps(c0, c1, c2);
                lemma_door_placed_footprints(c0, c1, h0, h2, hi, placed);
                assert(door_history(start, c2, h2, hi, placed));
                if placed is Some {
                    let ep = placed->0;
                    valid_sites_stay_valid(
                        c1,
                        c2,
                        h0,
                        h2,
                        hi,
                        ep.wall_x as int,
                        ep.wall_z as int,
                        ep.outward_edge,
                    );
                }
                if second is Some {
                    lemma_door_placed_footprints(c1, c2, h0, h2, hi, second);
                    assert(same_tiles(c2, c2));
                    lemma_same_opens_only(c2, c2);
                    assert(door_history(start, c2, h2, hi, second));
                    let ep = second->0;
                    valid_sites_stay_valid(
                        c2,
                        c2,
                        h0,
                        h2,
                        hi,
                        ep.wall_x as int,
                        ep.wall_z as int,
                        ep.outward_edge,
                    );
                }
                assert(doors_placed(start, c2, first[hi], h2, hi));
                assert(same_footprints(h0, first));
                lemma_door_placed_footprints(c0, c1, h0, first, hi, placed);
                if offered {
                    lemma_door_placed_footprints(c1, c2, h0, first, hi, second);
                    assert(second_door(c1, c2, first, hi, h2[hi]));
                }
                assert(got_doors(c0, c2, first, hi, h2[hi]));
                let more = states.push(c2);
                assert forall|i: int| 0 <= i <= index implies got_doors(
                    more[i],
                    more[i + 1],
                    first,
                    i,
                    #[trigger] h2[i],
                ) by {
                    if i < index {
                        assert(more[i] == states[i] && more[i + 1] == states[i + 1]);
                        assert(got_doors(states[i], states[i + 1], first, i, h0[i]));
                        assert(h2[i] == h0[i]);
                    } else {
                        assert(more[i] == c0 && more[i + 1] == c2);
                    }
                }
                states = more;
                assert forall|i: int| 0 <= i < index implies doors_placed(
                    start,
                    c2,
                    #[trigger] first[i],
                    h2,
                    i,
                ) by {
                    lemma_doors_later(start, c0, c2, first[i], h0, h2, i);
                }
            }
            index += 1;
        }
    }
}

} // verus!
