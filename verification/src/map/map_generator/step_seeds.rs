//! Steps 2–4: primary seeds, separation, subseed spawn.
use vstd::prelude::*;

use crate::map::map_generator::draft::{DraftBounds, MapDraft};
use crate::map::map_generator::types::{
    MIN_SEED_DISTANCE, PRIMARY_SEED_COUNT_MAX, PRIMARY_SEED_COUNT_MIN, SUBSEEDS_PER_PRIMARY_MAX,
    SUBSEEDS_PER_PRIMARY_MIN,
};
use crate::map::search::{tile_distance, Tile};
use crate::rng;

verus! {

pub fn manhattan(a: (i32, i32), b: (i32, i32)) -> (d: i32)
    requires
        tile_distance(a, b) <= i32::MAX,
    ensures
        d == tile_distance(a, b),
{
    let dx: i64 = a.0 as i64 - b.0 as i64;
    let dz: i64 = a.1 as i64 - b.1 as i64;
    let ax: i64 = if dx < 0 { -dx } else { dx };
    let az: i64 = if dz < 0 { -dz } else { dz };
    (ax + az) as i32
}

/// Whether the candidate keeps its distance from all of `existing`.
pub open spec fn keeps_distance(candidate: Tile, existing: Seq<Tile>) -> bool {
    forall|i: int| 0 <= i < existing.len() ==> tile_distance(#[trigger] existing[i], candidate) >= 18
}

/// Whether all tiles lie between `lo` and `hi` on both axes.
pub open spec fn within(tiles: Seq<Tile>, lo: int, hi: int) -> bool {
    forall|i: int|
        0 <= i < tiles.len() ==> lo <= (#[trigger] tiles[i]).0 <= hi && lo <= tiles[i].1 <= hi
}

/// Whether any two of the seeds keep their distance.
pub open spec fn spread_out(seeds: Seq<Tile>) -> bool {
    forall|i: int, j: int|
        0 <= i < j < seeds.len() ==> tile_distance(#[trigger] seeds[i], #[trigger] seeds[j]) >= 18
}

pub fn primary_seed_valid(candidate: (i32, i32), existing: &[(i32, i32)]) -> (ok: bool)
    requires
        forall|i: int|
            0 <= i < existing@.len() ==> tile_distance(#[trigger] existing@[i], candidate)
                <= i32::MAX,
    ensures
        ok == keeps_distance(candidate, existing@),
{
    let mut i: usize = 0;
    while i < existing.len()
        invariant
            i <= existing@.len(),
            forall|i: int|
                0 <= i < existing@.len() ==> tile_distance(#[trigger] existing@[i], candidate)
                    <= i32::MAX,
            forall|j: int|
                0 <= j < i ==> tile_distance(#[trigger] existing@[j], candidate) >= 18,
        decreases existing@.len() - i,
    {
        if manhattan(existing[i], candidate) < MIN_SEED_DISTANCE {
            return false;
        }
        i += 1;
    }
    true
}

/// Adds the candidate to the seeds if it keeps its distance from all of them.
pub fn try_primary_seed(seeds: &mut Vec<(i32, i32)>, candidate: (i32, i32)) -> (placed: bool)
    requires
        forall|i: int|
            0 <= i < old(seeds)@.len() ==> tile_distance(#[trigger] old(seeds)@[i], candidate)
                <= i32::MAX,
    ensures
        placed == keeps_distance(candidate, old(seeds)@),
        final(seeds)@ == if placed {
            old(seeds)@.push(candidate)
        } else {
            old(seeds)@
        },
{
    if primary_seed_valid(candidate, seeds.as_slice()) {
        seeds.push(candidate);
        true
    } else {
        false
    }
}

/// Offset of a subseed: `dist` tiles along one of eight directions.
pub open spec fn offset(dir: int, dist: int) -> (int, int) {
    let d = dir % 8;
    let dx = if d == 0 || d == 1 || d == 7 {
        dist
    } else if d == 3 || d == 4 || d == 5 {
        -dist
    } else {
        0
    };
    let dz = if d == 1 || d == 2 || d == 3 {
        dist
    } else if d == 5 || d == 6 || d == 7 {
        -dist
    } else {
        0
    };
    (dx, dz)
}

pub fn subseed_offset(dir: u8, dist: i32) -> (delta: (i32, i32))
    requires
        dist != i32::MIN,
    ensures
        delta.0 == offset(dir as int, dist as int).0,
        delta.1 == offset(dir as int, dist as int).1,
{
    match dir % 8 {
        0 => (dist, 0),
        1 => (dist, dist),
        2 => (0, dist),
        3 => (-dist, dist),
        4 => (-dist, 0),
        5 => (-dist, -dist),
        6 => (0, -dist),
        _ => (dist, -dist),
    }
}

/// `v` moved into `lo..=hi`.
pub open spec fn clamped(v: int, lo: int, hi: int) -> int {
    if v < lo {
        lo
    } else if v > hi {
        hi
    } else {
        v
    }
}

pub fn clamp_to(v: i32, lo: i32, hi: i32) -> (out: i32)
    requires
        lo <= hi,
    ensures
        out == clamped(v as int, lo as int, hi as int),
        lo <= out <= hi,
{
    if v < lo {
        lo
    } else if v > hi {
        hi
    } else {
        v
    }
}

/// The subseed that a roll of direction and distance puts beside a primary seed.
pub open spec fn sprout(seed: Tile, dir: int, dist: int, bounds: DraftBounds) -> Tile {
    (
        clamped(seed.0 + offset(dir, dist).0, bounds.grow_lo as int, bounds.grow_hi as int) as i32,
        clamped(seed.1 + offset(dir, dist).1, bounds.grow_lo as int, bounds.grow_hi as int) as i32,
    )
}

/// The subseed beside a primary seed for one roll of direction and distance.
pub fn subseed_center(seed: (i32, i32), dir: u8, dist: i32, bounds: &DraftBounds) -> (center: (
    i32,
    i32,
))
    requires
        bounds.grow_lo <= bounds.grow_hi,
        0 <= dist,
        i32::MIN + dist <= seed.0 <= i32::MAX - dist,
        i32::MIN + dist <= seed.1 <= i32::MAX - dist,
    ensures
        center == sprout(seed, dir as int, dist as int, *bounds),
        bounds.grow_lo <= center.0 <= bounds.grow_hi,
        bounds.grow_lo <= center.1 <= bounds.grow_hi,
{
    let (dx, dz) = subseed_offset(dir, dist);
    (
        clamp_to(seed.0 + dx, bounds.grow_lo, bounds.grow_hi),
        clamp_to(seed.1 + dz, bounds.grow_lo, bounds.grow_hi),
    )
}

/// Whether `t` is a subseed that some roll puts beside the seed.
pub open spec fn sprouts_from(t: Tile, seed: Tile, bounds: DraftBounds) -> bool {
    exists|dir: int, dist: int|
        0 <= dir < 8 && 2 <= dist <= 5 && t == #[trigger] sprout(seed, dir, dist, bounds)
}

/// Whether the subseeds from index `ends[i]` up to `ends[i + 1]` are two to four sprouts of
/// seed `i`, for each of the first `n` seeds.
pub open spec fn grouped(
    seeds: Seq<Tile>,
    n: int,
    subs: Seq<Tile>,
    ends: Seq<int>,
    bounds: DraftBounds,
) -> bool {
    &&& ends.len() == n + 1
    &&& ends[0] == 0
    &&& ends[n] == subs.len()
    &&& forall|i: int, j: int|
        0 <= i && j == i + 1 && j <= n ==> 2 <= #[trigger] ends[j] - #[trigger] ends[i] <= 4
    &&& forall|i: int, k: int|
        0 <= i < n && ends[i] <= k < ends[i + 1] ==> #[trigger] sprouts_from(
            subs[k],
            seeds[i],
            bounds,
        )
}

/// Whether `subs` holds two to four sprouts of each seed, seed by seed.
pub open spec fn sprouted(seeds: Seq<Tile>, subs: Seq<Tile>, bounds: DraftBounds) -> bool {
    exists|ends: Seq<int>| grouped(seeds, seeds.len() as int, subs, ends, bounds)
}

/// Whether none of 4096 places inside the bounds keeps its distance from the seeds.
pub open spec fn no_place_found(misses: Seq<Tile>, seeds: Seq<Tile>, lo: int, hi: int) -> bool {
    &&& misses.len() == 4096
    &&& within(misses, lo, hi)
    &&& forall|i: int| 0 <= i < misses.len() ==> !keeps_distance(#[trigger] misses[i], seeds)
}

/// Whether the primary seeds were placed, apart from each other: at least eight of them,
/// unless no place was found for the next one.
pub open spec fn seeds_placed(before: MapDraft, after: MapDraft) -> bool {
    &&& after == (MapDraft {
        primary_seeds: after.primary_seeds,
        rng: after.rng,
        ..before
    })
    &&& 1 <= after.primary_seeds@.len() <= 12
    &&& within(
        after.primary_seeds@,
        before.bounds.place_lo as int,
        before.bounds.place_hi as int,
    )
    &&& spread_out(after.primary_seeds@)
    &&& after.primary_seeds@.len() >= 8 || exists|misses: Seq<Tile>| #[trigger]
        no_place_found(
            misses,
            after.primary_seeds@,
            before.bounds.place_lo as int,
            before.bounds.place_hi as int,
        )
}

/// Whether every primary seed got its subseeds.
pub open spec fn subseeds_spawned(before: MapDraft, after: MapDraft) -> bool {
    &&& after == (MapDraft {
        growth_centers: after.growth_centers,
        subseed_centers: after.subseed_centers,
        rng: after.rng,
        ..before
    })
    &&& after.growth_centers@ == before.primary_seeds@
        + after.subseed_centers@
    &&& sprouted(
        before.primary_seeds@,
        after.subseed_centers@,
        before.bounds,
    )
    &&& within(
        after.subseed_centers@,
        before.bounds.grow_lo as int,
        before.bounds.grow_hi as int,
    )
    &&& after.subseed_centers@.len() >= 2 * before.primary_seeds@.len()
}

impl MapDraft {
    /// Places primary seeds at random, never two of them too close to each other. Stops at
    /// the first seed for which no place was found.
    pub fn step_place_primary_seeds(&mut self)
        requires
            old(self).wf(),
            old(self).size >= 2 * old(self).margin + 5,
        ensures
            final(self).wf(),
            seeds_placed(*old(self), *final(self)),
    {
        let lo: i32 = self.bounds.place_lo;
        let hi: i32 = self.bounds.place_hi;
        let target: i32 = rng::range(
            &mut self.rng,
            PRIMARY_SEED_COUNT_MIN,
            PRIMARY_SEED_COUNT_MAX,
        );
        let mut seeds: Vec<(i32, i32)> = Vec::new();
        let mut stuck: bool = false;
        let ghost mut misses: Seq<Tile> = seq![];
        while !stuck && (seeds.len() as i32) < target
            invariant
                0 <= lo <= hi <= 46340,
                8 <= target <= 12,
                stuck ==> no_place_found(misses, seeds@, lo as int, hi as int),
                seeds@.len() <= target,
                stuck ==> seeds@.len() >= 1,
                within(seeds@, lo as int, hi as int),
                spread_out(seeds@),
                *self == (MapDraft { rng: self.rng, ..*old(self) }),
            decreases target - seeds@.len(), (if stuck { 0int } else { 1 }),
        {
            let mut attempts: u32 = 0;
            let ghost before = seeds@.len();
            stuck = true;
            proof {
                misses = seq![];
            }
            while attempts < 4096 && stuck
                invariant
                    stuck ==> misses.len() == attempts,
                    within(misses, lo as int, hi as int),
                    stuck ==> forall|i: int|
                        0 <= i < misses.len() ==> !keeps_distance(#[trigger] misses[i], seeds@),
                    0 <= lo <= hi <= 46340,
                    attempts <= 4096,
                    before < target <= 12,
                    seeds@.len() == before + (if stuck { 0int } else { 1 }),
                    attempts == 0 ==> stuck,
                    attempts > 0 ==> seeds@.len() >= 1,
                    within(seeds@, lo as int, hi as int),
                    spread_out(seeds@),
                    *self == (MapDraft { rng: self.rng, ..*old(self) }),
                decreases 4096 - attempts,
            {
                let x: i32 = rng::range(&mut self.rng, lo, hi);
                let z: i32 = rng::range(&mut self.rng, lo, hi);
                if try_primary_seed(&mut seeds, (x, z)) {
                    stuck = false;
                } else {
                    proof {
                        misses = misses.push((x, z));
                    }
                }
                attempts += 1;
            }
        }
        self.primary_seeds = seeds;
    }

    /// Reserved hook after placement; spacing is enforced during
    /// [`step_place_primary_seeds`](Self::step_place_primary_seeds).
    pub fn step_separate_primary_seeds(&mut self)
        ensures
            *final(self) == *old(self),
    {
    }

    proof fn lemma_ends(
        seeds: Seq<Tile>,
        n: int,
        subs: Seq<Tile>,
        ends: Seq<int>,
        bounds: DraftBounds,
        i: int,
    )
        requires
            grouped(seeds, n, subs, ends, bounds),
            0 <= i <= n,
        ensures
            ends[i] <= subs.len(),
        decreases n - i,
    {
        if i < n {
            Self::lemma_ends(seeds, n, subs, ends, bounds, i + 1);
            assert(2 <= ends[i + 1] - ends[i] <= 4);
        }
    }

    proof fn lemma_starts(
        seeds: Seq<Tile>,
        n: int,
        subs: Seq<Tile>,
        ends: Seq<int>,
        bounds: DraftBounds,
        i: int,
    )
        requires
            grouped(seeds, n, subs, ends, bounds),
            0 <= i <= n,
        ensures
            0 <= ends[i],
        decreases i,
    {
        if i > 0 {
            Self::lemma_starts(seeds, n, subs, ends, bounds, i - 1);
            assert(2 <= ends[i] - ends[i - 1] <= 4);
        }
    }

    /// Puts two to four subseeds beside every primary seed.
    pub fn step_spawn_subseeds(&mut self)
        requires
            old(self).wf(),
            old(self).primary_seeds@.len() > 0 ==> old(self).size >= 2 * old(self).margin + 5,
            within(old(self).primary_seeds@, i32::MIN + 5, i32::MAX - 5),
        ensures
            final(self).wf(),
            subseeds_spawned(*old(self), *final(self)),
    {
        let bounds: DraftBounds = self.bounds;
        let mut subs: Vec<(i32, i32)> = Vec::new();
        let ghost mut ends: Seq<int> = seq![0];
        let mut i: usize = 0;
        while i < self.primary_seeds.len()
            invariant
                self.wf(),
                bounds == old(self).bounds,
                *self == (MapDraft { rng: self.rng, ..*old(self) }),
                i <= self.primary_seeds@.len(),
                self.primary_seeds@.len() > 0 ==> bounds.grow_lo <= bounds.grow_hi,
                within(self.primary_seeds@, i32::MIN + 5, i32::MAX - 5),
                grouped(self.primary_seeds@, i as int, subs@, ends, bounds),
                within(subs@, bounds.grow_lo as int, bounds.grow_hi as int),
                subs@.len() >= 2 * i,
            decreases self.primary_seeds@.len() - i,
        {
            let seed: (i32, i32) = self.primary_seeds[i];
            let count: i32 = rng::range(
                &mut self.rng,
                SUBSEEDS_PER_PRIMARY_MIN,
                SUBSEEDS_PER_PRIMARY_MAX,
            );
            let ghost before = subs@;
            let mut k: i32 = 0;
            while k < count
                invariant
                    0 <= k <= count,
                    2 <= count <= 4,
                    bounds.grow_lo <= bounds.grow_hi,
                    *self == (MapDraft { rng: self.rng, ..*old(self) }),
                    i32::MIN + 5 <= seed.0 <= i32::MAX - 5,
                    i32::MIN + 5 <= seed.1 <= i32::MAX - 5,
                    subs@.len() == before.len() + k,
                    subs@.take(before.len() as int) == before,
                    forall|j: int|
                        before.len() <= j < subs@.len() ==> sprouts_from(
                            #[trigger] subs@[j],
                            seed,
                            bounds,
                        ),
                    within(subs@, bounds.grow_lo as int, bounds.grow_hi as int),
                decreases count - k,
            {
                let dist: i32 = rng::range(&mut self.rng, 2, 5);
                let dir: i32 = rng::range(&mut self.rng, 0, 7);
                let center: (i32, i32) = subseed_center(seed, dir as u8, dist, &bounds);
                proof {
                    assert(sprouts_from(center, seed, bounds)) by {
                        assert(center == sprout(seed, dir as int, dist as int, bounds));
                    }
                }
                subs.push(center);
                k += 1;
                assert(subs@.take(before.len() as int) =~= before);
            }
            proof {
                let old_ends = ends;
                ends = ends.push(subs@.len() as int);
                assert forall|p: int, k: int|
                    0 <= p < i + 1 && ends[p] <= k < ends[p + 1] implies #[trigger] sprouts_from(
                    subs@[k],
                    self.primary_seeds@[p],
                    bounds,
                ) by {
                    if p < i {
                        Self::lemma_ends(self.primary_seeds@, i as int, before, old_ends, bounds, p + 1);
                        Self::lemma_starts(self.primary_seeds@, i as int, before, old_ends, bounds, p);
                        assert(ends[p] == old_ends[p] && ends[p + 1] == old_ends[p + 1]);
                        assert(sprouts_from(before[k], self.primary_seeds@[p], bounds));
                        assert(subs@.take(before.len() as int)[k] == subs@[k]);
                    }
                }
                assert(grouped(self.primary_seeds@, i + 1, subs@, ends, bounds));
            }
            i += 1;
        }
        let mut centers: Vec<(i32, i32)> = Vec::new();
        let mut j: usize = 0;
        while j < self.primary_seeds.len()
            invariant
                j <= self.primary_seeds@.len(),
                centers@ == self.primary_seeds@.take(j as int),
            decreases self.primary_seeds@.len() - j,
        {
            centers.push(self.primary_seeds[j]);
            j += 1;
            assert(centers@ =~= self.primary_seeds@.take(j as int));
        }
        assert(centers@ =~= self.primary_seeds@);
        j = 0;
        while j < subs.len()
            invariant
                j <= subs@.len(),
                centers@ == self.primary_seeds@ + subs@.take(j as int),
            decreases subs@.len() - j,
        {
            centers.push(subs[j]);
            j += 1;
            assert(centers@ =~= self.primary_seeds@ + subs@.take(j as int));
        }
        assert(subs@.take(j as int) =~= subs@);
        self.growth_centers = centers;
        self.subseed_centers = subs;
    }
}

} // verus!
