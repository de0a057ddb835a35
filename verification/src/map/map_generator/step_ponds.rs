//! Step: stamp square pond voids on exterior road (reveals chunk water below).
use rand::rngs::StdRng;
use vstd::prelude::*;

use crate::map::map_generator::draft::{
    get_tile, sound, tile_at, Cells, DraftTile, MapDraft,
};
use crate::map::map_generator::house::House;
use crate::map::map_generator::step_carpet::fill_rect;
use crate::map::map_generator::step_door::in_a_house;
use crate::map::map_generator::types::{
    PONDS_PER_CHUNK_MAX, PONDS_PER_CHUNK_MIN, POND_EDGE_MAX, POND_EDGE_MIN,
};
use crate::rng;

verus! {

/// Corners of a pond: x0, z0, x1, z1, all included.
pub type PondRect = (i32, i32, i32, i32);

/// Whether the pond holds the cell.
pub open spec fn pond_has(rect: PondRect, x: int, z: int) -> bool {
    rect.0 <= x <= rect.2 && rect.1 <= z <= rect.3
}

/// Whether a cell of the pond belongs to a house.
pub open spec fn on_house(rect: PondRect, houses: Seq<House>) -> bool {
    exists|x: int, z: int| pond_has(rect, x, z) && #[trigger] in_a_house(houses, x, z)
}

/// Whether two ponds share a cell.
pub open spec fn ponds_meet(a: PondRect, b: PondRect) -> bool {
    a.0 <= b.2 && b.0 <= a.2 && a.1 <= b.3 && b.1 <= a.3
}

/// Whether every cell of the pond is open road outside all houses.
pub open spec fn on_road(rect: PondRect, cells: Cells, houses: Seq<House>) -> bool {
    forall|x: int, z: int|
        pond_has(rect, x, z) ==> #[trigger] tile_at(cells, x, z) == DraftTile::Open && !in_a_house(
            houses,
            x,
            z,
        )
}

fn any_house(houses: &[House], x: i32, z: i32) -> (yes: bool)
    ensures
        yes == in_a_house(houses@, x as int, z as int),
{
    let mut i: usize = 0;
    while i < houses.len()
        invariant
            i <= houses@.len(),
            forall|j: int| 0 <= j < i ==> !(#[trigger] houses@[j]).has(x as int, z as int),
        decreases houses@.len() - i,
    {
        if houses[i].contains(x, z) {
            return true;
        }
        i += 1;
    }
    false
}

/// Whether a cell of the pond belongs to a house.
pub fn pond_overlaps_house(rect: (i32, i32, i32, i32), houses: &[House]) -> (yes: bool)
    requires
        rect.2 < i32::MAX,
        rect.3 < i32::MAX,
    ensures
        yes == on_house(rect, houses@),
{
    let (x0, z0, x1, z1) = rect;
    let mut z: i32 = z0;
    while z <= z1
        invariant
            rect == (x0, z0, x1, z1),
            x1 < i32::MAX,
            z1 < i32::MAX,
            z0 <= z,
            forall|u: int, w: int|
                pond_has(rect, u, w) && w < z ==> !#[trigger] in_a_house(houses@, u, w),
        decreases z1 + 1 - z,
    {
        let mut x: i32 = x0;
        while x <= x1
            invariant
                rect == (x0, z0, x1, z1),
                x1 < i32::MAX,
                z0 <= z <= z1,
                x0 <= x,
                forall|u: int, w: int|
                    pond_has(rect, u, w) && (w < z || w == z && u < x) ==> !#[trigger] in_a_house(
                        houses@,
                        u,
                        w,
                    ),
            decreases x1 + 1 - x,
        {
            if any_house(houses, x, z) {
                assert(pond_has(rect, x as int, z as int));
                return true;
            }
            x += 1;
        }
        z += 1;
    }
    false
}

fn pond_overlaps_pond(rect: (i32, i32, i32, i32), placed: &Vec<PondRect>) -> (yes: bool)
    ensures
        yes == exists|i: int| 0 <= i < placed@.len() && ponds_meet(rect, #[trigger] placed@[i]),
{
    let mut i: usize = 0;
    while i < placed.len()
        invariant
            i <= placed@.len(),
            forall|j: int| 0 <= j < i ==> !ponds_meet(rect, #[trigger] placed@[j]),
        decreases placed@.len() - i,
    {
        let p: PondRect = placed[i];
        if rect.0 <= p.2 && p.0 <= rect.2 && rect.1 <= p.3 && p.1 <= rect.3 {
            assert(ponds_meet(rect, placed@[i as int]));
            return true;
        }
        i += 1;
    }
    false
}

fn pond_fits_on_exterior_road(cells: &Cells, rect: (i32, i32, i32, i32), houses: &[House]) -> (yes:
    bool)
    requires
        sound(*cells, cells@.len() as int),
        rect.2 < i32::MAX,
        rect.3 < i32::MAX,
    ensures
        yes == on_road(rect, *cells, houses@),
{
    let (x0, z0, x1, z1) = rect;
    let mut z: i32 = z0;
    while z <= z1
        invariant
            sound(*cells, cells@.len() as int),
            rect == (x0, z0, x1, z1),
            x1 < i32::MAX,
            z1 < i32::MAX,
            z0 <= z,
            forall|u: int, w: int|
                pond_has(rect, u, w) && w < z ==> #[trigger] tile_at(*cells, u, w)
                    == DraftTile::Open && !in_a_house(houses@, u, w),
        decreases z1 + 1 - z,
    {
        let mut x: i32 = x0;
        while x <= x1
            invariant
                sound(*cells, cells@.len() as int),
                rect == (x0, z0, x1, z1),
                x1 < i32::MAX,
                z0 <= z <= z1,
                x0 <= x,
                forall|u: int, w: int|
                    pond_has(rect, u, w) && (w < z || w == z && u < x) ==> #[trigger] tile_at(
                        *cells,
                        u,
                        w,
                    ) == DraftTile::Open && !in_a_house(houses@, u, w),
            decreases x1 + 1 - x,
        {
            if any_house(houses, x, z) || get_tile(cells, x, z) != DraftTile::Open {
                assert(pond_has(rect, x as int, z as int));
                assert(tile_at(*cells, x as int, z as int) != DraftTile::Open || in_a_house(
                    houses@,
                    x as int,
                    z as int,
                ));
                return false;
            }
            x += 1;
        }
        z += 1;
    }
    true
}

/// Whether the ponds are squares of 4 to 16 cells inside the bounds, on open road outside all
/// houses, and share no cell.
pub open spec fn ponds_allowed(
    cells: Cells,
    houses: Seq<House>,
    lo: int,
    hi: int,
    ponds: Seq<PondRect>,
) -> bool {
    &&& forall|i: int|
        0 <= i < ponds.len() ==> {
            let p = #[trigger] ponds[i];
            &&& pond_shaped(p, lo, hi)
            &&& on_road(p, cells, houses)
        }
    &&& forall|i: int, j: int|
        0 <= i < j < ponds.len() ==> !ponds_meet(#[trigger] ponds[i], #[trigger] ponds[j])
}

/// Whether one of the ponds holds the cell.
pub open spec fn in_pond(ponds: Seq<PondRect>, x: int, z: int) -> bool {
    exists|i: int| 0 <= i < ponds.len() && pond_has(#[trigger] ponds[i], x, z)
}

/// Whether the ponds were dug and nothing else changed.
pub open spec fn dug(before: Cells, after: Cells, ponds: Seq<PondRect>) -> bool {
    forall|x: int, z: int| #[trigger]
        tile_at(after, x, z) == if in_pond(ponds, x, z) {
            DraftTile::Void
        } else {
            tile_at(before, x, z)
        }
}

/// Whether the rect is a square of 4 to 16 cells inside the bounds.
pub open spec fn pond_shaped(rect: PondRect, lo: int, hi: int) -> bool {
    &&& 4 <= rect.2 - rect.0 + 1 <= 16
    &&& rect.3 - rect.1 == rect.2 - rect.0
    &&& lo <= rect.0 && rect.2 <= hi
    &&& lo <= rect.1 && rect.3 <= hi
}

/// Whether the rect can be no pond beside the others: a cell of it is no open road or belongs
/// to a house, or it shares a cell with another pond.
pub open spec fn misfits(
    rect: PondRect,
    cells: Cells,
    houses: Seq<House>,
    ponds: Seq<PondRect>,
) -> bool {
    !on_road(rect, cells, houses) || exists|i: int|
        0 <= i < ponds.len() && ponds_meet(rect, #[trigger] ponds[i])
}

/// Whether none of 512 squares inside the bounds can be a pond beside the others.
pub open spec fn only_misfits(
    misses: Seq<PondRect>,
    cells: Cells,
    houses: Seq<House>,
    lo: int,
    hi: int,
    ponds: Seq<PondRect>,
) -> bool {
    &&& misses.len() == 512
    &&& forall|i: int|
        0 <= i < misses.len() ==> pond_shaped(#[trigger] misses[i], lo, hi) && misfits(
            misses[i],
            cells,
            houses,
            ponds,
        )
}

/// Whether no place was found for one more pond: a rolled edge is longer than the bounds, or
/// all squares that were tried are misfits.
pub open spec fn no_pond_place(
    cells: Cells,
    houses: Seq<House>,
    lo: int,
    hi: int,
    ponds: Seq<PondRect>,
) -> bool {
    ||| hi - lo + 1 < POND_EDGE_MAX
    ||| exists|misses: Seq<PondRect>| #[trigger]
        only_misfits(misses, cells, houses, lo, hi, ponds)
}

/// Whether these ponds were dug: as many as wanted, or fewer where no place was found for the
/// next one.
pub open spec fn pond_dig(
    before: Cells,
    after: Cells,
    houses: Seq<House>,
    lo: int,
    hi: int,
    target: int,
    ponds: Seq<PondRect>,
) -> bool {
    &&& ponds_allowed(before, houses, lo, hi, ponds)
    &&& dug(before, after, ponds)
    &&& ponds.len() <= target
    &&& ponds.len() < target ==> no_pond_place(before, houses, lo, hi, ponds)
}

/// Digs up to `target` square ponds on open road inside the bounds. Stops at the first pond
/// for which no place was found.
pub fn dig_ponds(
    cells: &mut Cells,
    houses: &Vec<House>,
    lo: i32,
    hi: i32,
    target: i32,
    rng: &mut StdRng,
)
    requires
        sound(*old(cells), old(cells)@.len() as int),
        0 <= target <= 2,
        i32::MIN + 16 <= hi < i32::MAX,
    ensures
        final(cells)@.len() == old(cells)@.len(),
        sound(*final(cells), final(cells)@.len() as int),
        exists|ponds: Seq<PondRect>| #[trigger]
            pond_dig(
                *old(cells),
                *final(cells),
                houses@,
                lo as int,
                hi as int,
                target as int,
                ponds,
            ),
{
    let mut placed: Vec<PondRect> = Vec::new();
    let ghost start = *cells;
    let mut stuck: bool = false;
    while !stuck && (placed.len() as i32) < target
        invariant
            start == *old(cells),
            cells@.len() == start@.len(),
            sound(*cells, cells@.len() as int),
            0 <= target <= 2,
            i32::MIN + 16 <= hi < i32::MAX,
            placed@.len() <= target,
            ponds_allowed(start, houses@, lo as int, hi as int, placed@),
            dug(start, *cells, placed@),
            stuck ==> no_pond_place(start, houses@, lo as int, hi as int, placed@),
        decreases target - placed@.len(), (if stuck { 0int } else { 1 }),
    {
        stuck = true;
        let mut attempts: u32 = 0;
        let ghost count = placed@.len();
        let ghost mut misses: Seq<PondRect> = seq![];
        while attempts < 512 && stuck
            invariant
                start == *old(cells),
                cells@.len() == start@.len(),
                sound(*cells, cells@.len() as int),
                attempts <= 512,
                count < target <= 2,
                i32::MIN + 16 <= hi < i32::MAX,
                placed@.len() == count + (if stuck { 0int } else { 1 }),
                ponds_allowed(start, houses@, lo as int, hi as int, placed@),
                dug(start, *cells, placed@),
                stuck ==> hi - lo + 1 < POND_EDGE_MAX || misses.len() == attempts,
                stuck ==> forall|i: int|
                    0 <= i < misses.len() ==> pond_shaped(
                        #[trigger] misses[i],
                        lo as int,
                        hi as int,
                    ) && misfits(misses[i], start, houses@, placed@),
            decreases 512 - attempts,
        {
            attempts += 1;
            let edge: i32 = rng::range(rng, POND_EDGE_MIN, POND_EDGE_MAX);
            let max_origin: i32 = hi - edge + 1;
            if max_origin < lo {
                attempts = 512;
            } else {
                let x0: i32 = rng::range(rng, lo, max_origin);
                let z0: i32 = rng::range(rng, lo, max_origin);
                let rect: PondRect = (x0, z0, x0 + (edge - 1), z0 + (edge - 1));
                if !pond_overlaps_house(rect, houses.as_slice()) && !pond_overlaps_pond(
                    rect,
                    &placed,
                ) && pond_fits_on_exterior_road(cells, rect, houses.as_slice()) {
                    let ghost before = *cells;
                    let ghost old_ponds = placed@;
                    proof {
                        assert(pond_has(rect, rect.0 as int, rect.1 as int));
                        assert(pond_has(rect, rect.2 as int, rect.3 as int));
                        assert(tile_at(*cells, rect.0 as int, rect.1 as int) == DraftTile::Open);
                        assert(tile_at(*cells, rect.2 as int, rect.3 as int) == DraftTile::Open);
                    }
                    fill_rect(cells, rect.0, rect.1, rect.2 + 1, rect.3 + 1, DraftTile::Void);
                    placed.push(rect);
                    stuck = false;
                    proof {
                        lemma_one_more_pond(
                            start,
                            before,
                            *cells,
                            houses@,
                            lo as int,
                            hi as int,
                            old_ponds,
                            rect,
                        );
                    }
                } else {
                    proof {
                        lemma_misfit(start, *cells, houses@, placed@, rect);
                        misses = misses.push(rect);
                    }
                }
            }
        }
        proof {
            if stuck && !(hi - lo + 1 < POND_EDGE_MAX) {
                assert(only_misfits(misses, start, houses@, lo as int, hi as int, placed@));
            }
        }
    }
    proof {
        assert(pond_dig(
            start,
            *cells,
            houses@,
            lo as int,
            hi as int,
            target as int,
            placed@,
        ));
    }
}

/// Whether up to two ponds were dug on open road.
pub open spec fn ponds_dug(before: MapDraft, after: MapDraft) -> bool {
    &&& after == (MapDraft {
        cells: after.cells,
        rng: after.rng,
        ..before
    })
    &&& exists|ponds: Seq<PondRect>|
        #![trigger ponds_allowed(before.cells, before.houses@, before.bounds.grow_lo as int, before.bounds.grow_hi as int, ponds)]
        {
            &&& ponds.len() <= 2
            &&& ponds_allowed(
                before.cells,
                before.houses@,
                before.bounds.grow_lo as int,
                before.bounds.grow_hi as int,
                ponds,
            )
            &&& forall|x: int, z: int| #[trigger]
                after.tile(x, z) == if in_pond(ponds, x, z) {
                    DraftTile::Void
                } else {
                    before.tile(x, z)
                }
        }
}

impl MapDraft {
    /// Places 0–2 square ponds on open road tiles that do not overlap any house footprint;
    /// how many are wanted is rolled.
    pub fn step_place_ponds(&mut self)
        requires
            old(self).wf(),
        ensures
            final(self).wf(),
            ponds_dug(*old(self), *final(self)),
    {
        let lo: i32 = self.bounds.grow_lo;
        let hi: i32 = self.bounds.grow_hi;
        let target: i32 = rng::range(&mut self.rng, PONDS_PER_CHUNK_MIN, PONDS_PER_CHUNK_MAX);
        dig_ponds(&mut self.cells, &self.houses, lo, hi, target, &mut self.rng);
        proof {
            let before = *old(self);
            let ponds = choose|ponds: Seq<PondRect>| #[trigger]
                pond_dig(
                    before.cells,
                    self.cells,
                    before.houses@,
                    lo as int,
                    hi as int,
                    target as int,
                    ponds,
                );
            assert(ponds_allowed(before.cells, before.houses@, lo as int, hi as int, ponds));
            assert forall|x: int, z: int| #[trigger]
                self.tile(x, z) == if in_pond(ponds, x, z) {
                    DraftTile::Void
                } else {
                    before.tile(x, z)
                } by {
                assert(tile_at(self.cells, x, z) == if in_pond(ponds, x, z) {
                    DraftTile::Void
                } else {
                    tile_at(before.cells, x, z)
                });
            }
        }
    }
}

/// A square that found no place among the dug ponds is a misfit on the ground before them.
proof fn lemma_misfit(
    start: Cells,
    cells: Cells,
    houses: Seq<House>,
    ponds: Seq<PondRect>,
    rect: PondRect,
)
    requires
        dug(start, cells, ponds),
        on_house(rect, houses) || (exists|i: int|
            0 <= i < ponds.len() && ponds_meet(rect, #[trigger] ponds[i])) || !on_road(
            rect,
            cells,
            houses,
        ),
    ensures
        misfits(rect, start, houses, ponds),
{
    if !misfits(rect, start, houses, ponds) {
        if on_house(rect, houses) {
            let (x, z) = choose|x: int, z: int|
                pond_has(rect, x, z) && #[trigger] in_a_house(houses, x, z);
            assert(tile_at(start, x, z) == DraftTile::Open && !in_a_house(houses, x, z));
        }
        assert forall|x: int, z: int| pond_has(rect, x, z) implies #[trigger] tile_at(cells, x, z)
            == DraftTile::Open && !in_a_house(houses, x, z) by {
            assert(tile_at(start, x, z) == DraftTile::Open);
            if in_pond(ponds, x, z) {
                let i = choose|i: int| 0 <= i < ponds.len() && pond_has(#[trigger] ponds[i], x, z);
                assert(ponds_meet(rect, ponds[i]));
            }
        }
    }
}

proof fn lemma_one_more_pond(
    start: Cells,
    before: Cells,
    after: Cells,
    houses: Seq<House>,
    lo: int,
    hi: int,
    ponds: Seq<PondRect>,
    rect: PondRect,
)
    requires
        ponds_allowed(start, houses, lo, hi, ponds),
        forall|x: int, z: int| #[trigger]
            tile_at(before, x, z) == if in_pond(ponds, x, z) {
                DraftTile::Void
            } else {
                tile_at(start, x, z)
            },
        forall|x: int, z: int| #[trigger]
            tile_at(after, x, z) == if rect.0 <= x < rect.2 + 1 && rect.1 <= z < rect.3 + 1 {
                DraftTile::Void
            } else {
                tile_at(before, x, z)
            },
        4 <= rect.2 - rect.0 + 1 <= 16,
        rect.3 - rect.1 == rect.2 - rect.0,
        lo <= rect.0 && rect.2 <= hi,
        lo <= rect.1 && rect.3 <= hi,
        on_road(rect, before, houses),
        forall|i: int| 0 <= i < ponds.len() ==> !ponds_meet(rect, #[trigger] ponds[i]),
    ensures
        ponds_allowed(start, houses, lo, hi, ponds.push(rect)),
        forall|x: int, z: int| #[trigger]
            tile_at(after, x, z) == if in_pond(ponds.push(rect), x, z) {
                DraftTile::Void
            } else {
                tile_at(start, x, z)
            },
{
    let more = ponds.push(rect);
    assert forall|x: int, z: int| #[trigger] in_pond(more, x, z) == (in_pond(ponds, x, z)
        || pond_has(rect, x, z)) by {
        if in_pond(ponds, x, z) {
            let i = choose|i: int| 0 <= i < ponds.len() && pond_has(#[trigger] ponds[i], x, z);
            assert(pond_has(more[i], x, z));
        }
        if pond_has(rect, x, z) {
            assert(pond_has(more[ponds.len() as int], x, z));
        }
        if in_pond(more, x, z) {
            let i = choose|i: int| 0 <= i < more.len() && pond_has(#[trigger] more[i], x, z);
            if i < ponds.len() {
                assert(pond_has(ponds[i], x, z));
            }
        }
    }
    assert forall|x: int, z: int| #[trigger]
        tile_at(after, x, z) == if in_pond(more, x, z) {
            DraftTile::Void
        } else {
            tile_at(start, x, z)
        } by {
        assert(tile_at(before, x, z) == if in_pond(ponds, x, z) {
            DraftTile::Void
        } else {
            tile_at(start, x, z)
        });
        assert(in_pond(more, x, z) == (in_pond(ponds, x, z) || pond_has(rect, x, z)));
    }
    assert(on_road(rect, start, houses)) by {
        assert forall|x: int, z: int| pond_has(rect, x, z) implies #[trigger] tile_at(start, x, z)
            == DraftTile::Open && !in_a_house(houses, x, z) by {
            assert(tile_at(before, x, z) == DraftTile::Open);
        }
    }
    assert forall|i: int, j: int| 0 <= i < j < more.len() implies !ponds_meet(
        #[trigger] more[i],
        #[trigger] more[j],
    ) by {
        if j == ponds.len() {
            assert(!ponds_meet(rect, ponds[i]));
        } else {
            assert(!ponds_meet(ponds[i], ponds[j]));
        }
    }
}

} // verus!
