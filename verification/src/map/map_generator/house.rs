//! Houses: merged subseed room footprints (subseed data discarded after clustering).
use vstd::prelude::*;

use crate::map::map_generator::draft::Room;
use crate::map::map_generator::types::{
    GeneratedHouse, HouseEntrypoint, MIN_HOUSE_AREA_FOR_CENTER_WAVE,
};

verus! {

/// One building footprint — possibly several merged axis-aligned rects.
#[derive(Debug)]
pub struct House {
    pub rects: Vec<Room>,
    pub x0: i32,
    pub z0: i32,
    pub x1: i32,
    pub z1: i32,
    /// Number of cells in the union of the rects.
    pub footprint_area: i32,
    pub entry: Option<HouseEntrypoint>,
    pub entry2: Option<HouseEntrypoint>,
}

/// Whether one of the rects holds the cell.
pub open spec fn union_has(rooms: Seq<Room>, x: int, z: int) -> bool {
    exists|i: int| 0 <= i < rooms.len() && (#[trigger] rooms[i]).has(x, z)
}

/// Whether the house and its bounding box lie in an `n` by `n` grid, and the box holds it.
pub open spec fn house_fits(house: House, n: int) -> bool {
    &&& 0 <= house.x0 <= house.x1 < n
    &&& 0 <= house.z0 <= house.z1 < n
    &&& 0 <= house.footprint_area
    &&& forall|i: int|
        0 <= i < house.rects@.len() ==> house.x0 <= (#[trigger] house.rects@[i]).x0
            && house.rects@[i].x1 <= house.x1 && house.z0 <= house.rects@[i].z0
            && house.rects@[i].z1 <= house.z1
}

impl House {
    /// Whether the footprint holds the cell.
    pub open spec fn has(self, x: int, z: int) -> bool {
        union_has(self.rects@, x, z)
    }

    /// The house with its doorways as in `other`.
    pub open spec fn same_footprint(self, other: House) -> bool {
        &&& self.rects == other.rects
        &&& self.x0 == other.x0
        &&& self.z0 == other.z0
        &&& self.x1 == other.x1
        &&& self.z1 == other.z1
        &&& self.footprint_area == other.footprint_area
    }

    pub fn contains(&self, x: i32, z: i32) -> (inside: bool)
        ensures
            inside == self.has(x as int, z as int),
    {
        crate::map::map_generator::union::union_contains(self.rects.as_slice(), x, z)
    }

    pub fn center(&self) -> (center: (i32, i32))
        requires
            0 <= self.x0 <= 46340,
            0 <= self.x1 <= 46340,
            0 <= self.z0 <= 46340,
            0 <= self.z1 <= 46340,
        ensures
            center.0 == (self.x0 + self.x1) / 2,
            center.1 == (self.z0 + self.z1) / 2,
    {
        ((self.x0 + self.x1) / 2, (self.z0 + self.z1) / 2)
    }

    /// A house whose footprint is one rect.
    pub fn from_single_rect(rect: Room) -> (house: Self)
        requires
            0 <= rect.x0 <= rect.x1 < 46340,
            0 <= rect.z0 <= rect.z1 < 46340,
        ensures
            house.rects@ == seq![rect],
            house.x0 == rect.x0,
            house.z0 == rect.z0,
            house.x1 == rect.x1,
            house.z1 == rect.z1,
            house.footprint_area == (rect.x1 - rect.x0 + 1) * (rect.z1 - rect.z0 + 1),
            house.entry is None,
            house.entry2 is None,
    {
        let mut rects: Vec<Room> = Vec::new();
        rects.push(rect);
        assert(rects@ =~= seq![rect]);
        let w: i32 = rect.x1 - rect.x0 + 1;
        let h: i32 = rect.z1 - rect.z0 + 1;
        assert(0 <= w * h <= 46340 * 46340) by (nonlinear_arith)
            requires
                0 <= w <= 46340,
                0 <= h <= 46340,
        ;
        House {
            rects,
            x0: rect.x0,
            z0: rect.z0,
            x1: rect.x1,
            z1: rect.z1,
            footprint_area: w * h,
            entry: None,
            entry2: None,
        }
    }

    /// Whether the house is large enough for the glass wave around its center.
    pub fn supports_center_glass_wave(&self) -> (yes: bool)
        ensures
            yes == (self.footprint_area >= 30),
    {
        self.footprint_area >= MIN_HOUSE_AREA_FOR_CENTER_WAVE
    }

    /// Reference data of the house.
    pub open spec fn generated(self) -> GeneratedHouse {
        GeneratedHouse {
            x0: self.x0,
            z0: self.z0,
            x1: self.x1,
            z1: self.z1,
            center_x: ((self.x0 + self.x1) / 2) as i32,
            center_z: ((self.z0 + self.z1) / 2) as i32,
            area: self.footprint_area,
            entry: self.entry->0,
            entry2: self.entry2,
        }
    }

    /// Reference data of a house that has its main doorway.
    pub fn to_generated(&self) -> (out: GeneratedHouse)
        requires
            0 <= self.x0 <= 46340,
            0 <= self.x1 <= 46340,
            0 <= self.z0 <= 46340,
            0 <= self.z1 <= 46340,
            self.entry is Some,
        ensures
            out == self.generated(),
    {
        let (center_x, center_z) = self.center();
        GeneratedHouse {
            x0: self.x0,
            z0: self.z0,
            x1: self.x1,
            z1: self.z1,
            center_x,
            center_z,
            area: self.footprint_area,
            entry: self.entry.unwrap(),
            entry2: self.entry2,
        }
    }
}

/// Whether the cell belongs to the house and one of its neighbours does not.
pub open spec fn on_perimeter(house: House, x: int, z: int) -> bool {
    house.has(x, z) && (!house.has(x, z - 1) || !house.has(x, z + 1) || !house.has(x - 1, z)
        || !house.has(x + 1, z))
}

pub fn house_contains(house: &House, x: i32, z: i32) -> (inside: bool)
    ensures
        inside == house.has(x as int, z as int),
{
    house.contains(x, z)
}

pub fn house_on_perimeter(house: &House, x: i32, z: i32) -> (yes: bool)
    requires
        i32::MIN < x < i32::MAX,
        i32::MIN < z < i32::MAX,
    ensures
        yes == on_perimeter(*house, x as int, z as int),
{
    if !house.contains(x, z) {
        return false;
    }
    !house.contains(x, z - 1) || !house.contains(x, z + 1) || !house.contains(x - 1, z)
        || !house.contains(x + 1, z)
}

/// The rects of the first `n` houses, one house after the other.
pub open spec fn rects_of(houses: Seq<House>, n: nat) -> Seq<Room>
    decreases n,
{
    if n == 0 {
        seq![]
    } else {
        rects_of(houses, (n - 1) as nat) + houses[n - 1].rects@
    }
}

pub fn all_house_rects(houses: &Vec<House>) -> (rooms: Vec<Room>)
    ensures
        rooms@ == rects_of(houses@, houses@.len()),
{
    let mut rooms: Vec<Room> = Vec::new();
    let mut i: usize = 0;
    while i < houses.len()
        invariant
            i <= houses@.len(),
            rooms@ == rects_of(houses@, i as nat),
        decreases houses@.len() - i,
    {
        let house: &House = &houses[i];
        let ghost before = rooms@;
        let mut j: usize = 0;
        while j < house.rects.len()
            invariant
                j <= house.rects@.len(),
                rooms@ == before + house.rects@.take(j as int),
            decreases house.rects@.len() - j,
        {
            rooms.push(house.rects[j]);
            j += 1;
            assert(rooms@ =~= before + house.rects@.take(j as int));
        }
        assert(house.rects@.take(j as int) =~= house.rects@);
        i += 1;
    }
    rooms
}

/// A cell is in one of the rects of all houses exactly when it is in a house.
pub proof fn lemma_rects_of(houses: Seq<House>, n: nat, x: int, z: int)
    requires
        n <= houses.len(),
    ensures
        union_has(rects_of(houses, n), x, z) == exists|i: int|
            0 <= i < n && (#[trigger] houses[i]).has(x, z),
    decreases n,
{
    if n > 0 {
        let m = (n - 1) as nat;
        lemma_rects_of(houses, m, x, z);
        let a = rects_of(houses, m);
        let b = houses[n - 1].rects@;
        let all = rects_of(houses, n);
        assert(all == a + b);
        if union_has(a, x, z) {
            let i = choose|i: int| 0 <= i < a.len() && (#[trigger] a[i]).has(x, z);
            assert(all[i].has(x, z));
        }
        if union_has(b, x, z) {
            let i = choose|i: int| 0 <= i < b.len() && (#[trigger] b[i]).has(x, z);
            assert(all[a.len() + i].has(x, z));
            assert(houses[n - 1].has(x, z));
        }
        if union_has(all, x, z) {
            let i = choose|i: int| 0 <= i < all.len() && (#[trigger] all[i]).has(x, z);
            if i < a.len() {
                assert(a[i].has(x, z));
            } else {
                assert(b[i - a.len()].has(x, z));
                assert(houses[n - 1].has(x, z));
            }
        }
    }
}

} // verus!
