//! Step 5: grow axis-aligned rooms from subseed centers.
use vstd::prelude::*;

use crate::map::map_generator::draft::{DraftBounds, MapDraft, Room, RoomRecord};
use crate::map::map_generator::step_houses::proper;
use crate::map::map_generator::step_seeds::{clamp_to, clamped, within};
use crate::map::map_generator::types::{SUBSEED_ROOM_RADIUS_MAX, SUBSEED_ROOM_RADIUS_MIN};
use crate::map::search::Tile;
use crate::rng;

verus! {

/// The rect around a center with the given radii, cut off at the growth bounds.
pub open spec fn grown(center: Tile, rx: int, rz: int, bounds: DraftBounds) -> Room {
    let lo = bounds.grow_lo as int;
    let hi = bounds.grow_hi as int;
    Room {
        x0: clamped(center.0 - rx, lo, hi) as i32,
        z0: clamped(center.1 - rz, lo, hi) as i32,
        x1: clamped(center.0 + rx, lo, hi) as i32,
        z1: clamped(center.1 + rz, lo, hi) as i32,
    }
}

/// Number of cells of a rect.
pub open spec fn room_area(room: Room) -> int {
    if room.x0 <= room.x1 && room.z0 <= room.z1 {
        (room.x1 - room.x0 + 1) * (room.z1 - room.z0 + 1)
    } else {
        0
    }
}

/// The rects of at least four cells that grow from the first `n` centers with these radii.
pub open spec fn grown_rooms(
    centers: Seq<Tile>,
    radii: Seq<(i32, i32)>,
    bounds: DraftBounds,
    n: nat,
) -> Seq<Room>
    decreases n,
{
    if n == 0 {
        seq![]
    } else {
        let rest = grown_rooms(centers, radii, bounds, (n - 1) as nat);
        let room = grown(
            centers[n - 1],
            radii[n - 1].0 as int,
            radii[n - 1].1 as int,
            bounds,
        );
        if room_area(room) >= 4 {
            rest.push(room)
        } else {
            rest
        }
    }
}

/// Whether every radius lies in the range that is rolled.
pub open spec fn radii_rolled(radii: Seq<(i32, i32)>) -> bool {
    forall|i: int|
        0 <= i < radii.len() ==> SUBSEED_ROOM_RADIUS_MIN <= (#[trigger] radii[i]).0
            <= SUBSEED_ROOM_RADIUS_MAX && SUBSEED_ROOM_RADIUS_MIN <= radii[i].1
            <= SUBSEED_ROOM_RADIUS_MAX
}

/// The rects of the records.
pub open spec fn bounds_of(records: Seq<RoomRecord>) -> Seq<Room> {
    records.map_values(|r: RoomRecord| r.bounds)
}

/// Whether the rects stay inside the growth bounds.
pub open spec fn inside_growth(records: Seq<RoomRecord>, bounds: DraftBounds) -> bool {
    forall|i: int|
        0 <= i < records.len() ==> bounds.grow_lo <= (#[trigger] records[i]).bounds.x0
            && records[i].bounds.x1 <= bounds.grow_hi && bounds.grow_lo <= records[i].bounds.z0
            && records[i].bounds.z1 <= bounds.grow_hi
}

impl Room {
    pub fn from_center_growth(center: (i32, i32), rx: i32, rz: i32, bounds: &DraftBounds) -> (room:
        Self)
        requires
            bounds.grow_lo <= bounds.grow_hi,
            0 <= rx,
            0 <= rz,
            i32::MIN + rx <= center.0 <= i32::MAX - rx,
            i32::MIN + rz <= center.1 <= i32::MAX - rz,
        ensures
            room == grown(center, rx as int, rz as int, *bounds),
            bounds.grow_lo <= room.x0 <= room.x1 <= bounds.grow_hi,
            bounds.grow_lo <= room.z0 <= room.z1 <= bounds.grow_hi,
    {
        Room {
            x0: clamp_to(center.0 - rx, bounds.grow_lo, bounds.grow_hi),
            z0: clamp_to(center.1 - rz, bounds.grow_lo, bounds.grow_hi),
            x1: clamp_to(center.0 + rx, bounds.grow_lo, bounds.grow_hi),
            z1: clamp_to(center.1 + rz, bounds.grow_lo, bounds.grow_hi),
        }
    }

    pub fn area(&self) -> (area: i32)
        requires
            -1 <= self.x1 - self.x0 + 1 <= 46340,
            -1 <= self.z1 - self.z0 + 1 <= 46340,
        ensures
            area == room_area(*self),
    {
        let w: i32 = self.x1 - self.x0 + 1;
        let h: i32 = self.z1 - self.z0 + 1;
        if w <= 0 || h <= 0 {
            return 0;
        }
        assert(0 <= w * h <= 46340 * 46340) by (nonlinear_arith)
            requires
                0 <= w <= 46340,
                0 <= h <= 46340,
        ;
        w * h
    }
}

/// Whether a rect grew from every subseed center.
pub open spec fn rooms_grown(before: MapDraft, after: MapDraft) -> bool {
    &&& after == (MapDraft {
        room_records: after.room_records,
        rng: after.rng,
        ..before
    })
    &&& exists|radii: Seq<(i32, i32)>|
        #![trigger radii_rolled(radii)]
        {
            &&& radii.len() == before.subseed_centers@.len()
            &&& radii_rolled(radii)
            &&& bounds_of(after.room_records@) == grown_rooms(
                before.subseed_centers@,
                radii,
                before.bounds,
                radii.len(),
            )
        }
    &&& forall|i: int|
        0 <= i < after.room_records@.len() ==> proper(
            (#[trigger] after.room_records@[i]).bounds,
            before.size as int,
        )
    &&& inside_growth(after.room_records@, before.bounds)
}

impl MapDraft {
    /// Grows one rect from every subseed center, with radii that are rolled.
    pub fn step_grow_rooms(&mut self)
        requires
            old(self).wf(),
            old(self).subseed_centers@.len() > 0 ==> old(self).size >= 2 * old(self).margin + 5,
            within(old(self).subseed_centers@, i32::MIN + 15, i32::MAX - 15),
        ensures
            final(self).wf(),
            rooms_grown(*old(self), *final(self)),
    {
        let bounds: DraftBounds = self.bounds;
        let mut records: Vec<RoomRecord> = Vec::new();
        let ghost mut radii: Seq<(i32, i32)> = seq![];
        let mut i: usize = 0;
        assert(bounds_of(records@) =~= seq![]);
        while i < self.subseed_centers.len()
            invariant
                self.wf(),
                bounds == old(self).bounds,
                *self == (MapDraft { rng: self.rng, ..*old(self) }),
                i <= self.subseed_centers@.len(),
                self.subseed_centers@.len() > 0 ==> bounds.grow_lo <= bounds.grow_hi,
                bounds.of(self.size as int, self.margin as int),
                within(self.subseed_centers@, i32::MIN + 15, i32::MAX - 15),
                radii.len() == i,
                radii_rolled(radii),
                bounds_of(records@) == grown_rooms(self.subseed_centers@, radii, bounds, i as nat),
                forall|j: int|
                    0 <= j < records@.len() ==> proper(
                        (#[trigger] records@[j]).bounds,
                        self.size as int,
                    ),
                inside_growth(records@, bounds),
            decreases self.subseed_centers@.len() - i,
        {
            let center: (i32, i32) = self.subseed_centers[i];
            let rx: i32 = rng::range(
                &mut self.rng,
                SUBSEED_ROOM_RADIUS_MIN,
                SUBSEED_ROOM_RADIUS_MAX,
            );
            let rz: i32 = rng::range(
                &mut self.rng,
                SUBSEED_ROOM_RADIUS_MIN,
                SUBSEED_ROOM_RADIUS_MAX,
            );
            let room = Room::from_center_growth(center, rx, rz, &bounds);
            let ghost before = records@;
            let ghost old_radii = radii;
            if room.area() >= 4 {
                records.push(RoomRecord { bounds: room });
                assert(bounds_of(records@) =~= bounds_of(before).push(room));
            }
            proof {
                radii = radii.push((rx, rz));
                lemma_grown_prefix(
                    self.subseed_centers@,
                    old_radii,
                    radii,
                    bounds,
                    i as nat,
                );
            }
            i += 1;
        }
        self.room_records = records;
    }
}

proof fn lemma_grown_prefix(
    centers: Seq<Tile>,
    a: Seq<(i32, i32)>,
    b: Seq<(i32, i32)>,
    bounds: DraftBounds,
    n: nat,
)
    requires
        n <= a.len(),
        n <= b.len(),
        forall|i: int| 0 <= i < n ==> a[i] == b[i],
    ensures
        grown_rooms(centers, a, bounds, n) == grown_rooms(centers, b, bounds, n),
    decreases n,
{
    if n > 0 {
        lemma_grown_prefix(centers, a, b, bounds, (n - 1) as nat);
    }
}

} // verus!
