//! Step 10: per-house floor waves — glass around the house center, marble from the main
//! entry — up to a random Manhattan radius.
use vstd::prelude::*;

use crate::flood::{flood_step, flood_within, TileField};
use crate::map::map_generator::draft::{get_tile, sound, tile_at, Cells, DraftTile, MapDraft};
use crate::map::map_generator::entry_tile::{entry_floor, entry_interior_tile};
use crate::map::map_generator::grid::{in_grid, is_square, put, value_at};
use crate::map::map_generator::house::{house_fits, House};
use crate::map::map_generator::inner_doors_laws::entry_near;
use crate::map::map_generator::step_door::lemma_in_box;
use crate::map::search::{adjacent, tile_distance, Tile};
use crate::map::world_map::TileStyle;
use crate::reach::{joined, reaches_within, walks};
use crate::rng;

verus! {

/// Minimum Manhattan wave radius per house (inclusive).
pub const HOME_CRAWLER_WAVE_MIN: i32 = 3;

/// Maximum Manhattan wave radius per house (inclusive).
pub const HOME_CRAWLER_WAVE_MAX: i32 = 5;

/// Whether the cell is open floor of the house.
pub open spec fn house_floor(cells: Cells, house: House, t: Tile) -> bool {
    house.has(t.0 as int, t.1 as int) && tile_at(cells, t.0 as int, t.1 as int) == DraftTile::Open
}

/// The steps of a wave: to a neighbour that is open floor of the house.
pub open spec fn wave_step(cells: Cells, house: House) -> spec_fn(Tile, Tile) -> bool {
    |a: Tile, b: Tile| adjacent(a, b) && house_floor(cells, house, b)
}

/// A wave of `r` steps gets no further than `r` tiles, and covers only open floor of the
/// house besides its start.
pub proof fn waves_stay_near(cells: Cells, house: House, s: Tile, t: Tile, r: int)
    requires
        reaches_within(wave_step(cells, house), s, t, r),
    ensures
        tile_distance(s, t) <= r,
        t == s || house_floor(cells, house, t),
{
    let step = wave_step(cells, house);
    let path = choose|path: Seq<Tile>| walks(step, s, t, path) && path.len() <= r + 1;
    lemma_path_near(cells, house, s, path, path.len() - 1);
    if path.len() > 1 {
        assert(joined(step, path, path.len() - 2));
    }
}

proof fn lemma_path_near(cells: Cells, house: House, s: Tile, path: Seq<Tile>, i: int)
    requires
        0 <= i < path.len(),
        path[0] == s,
        crate::reach::is_walk(wave_step(cells, house), path),
    ensures
        tile_distance(s, path[i]) <= i,
    decreases i,
{
    if i > 0 {
        lemma_path_near(cells, house, s, path, i - 1);
        assert(joined(wave_step(cells, house), path, i - 1));
        assert(adjacent(path[i - 1], path[i]));
    }
}

/// The open floor of one house.
struct HouseFloor<'a> {
    cells: &'a Cells,
    house: &'a House,
}

impl<'a> TileField for HouseFloor<'a> {
    closed spec fn valid(&self) -> bool {
        sound(*self.cells, self.cells@.len() as int)
    }

    closed spec fn spreads(&self, a: Tile, b: Tile) -> bool {
        adjacent(a, b) && house_floor(*self.cells, *self.house, b)
    }

    closed spec fn denies(&self, a: Tile, b: Tile) -> bool {
        !self.spreads(a, b)
    }

    proof fn spreads_to_neighbours(&self) {
    }

    fn can_spread(&self, a: (i32, i32), b: (i32, i32)) -> (yes: bool) {
        self.house.contains(b.0, b.1) && get_tile(self.cells, b.0, b.1) == DraftTile::Open
    }
}

/// The tiles that a wave of `r` steps from `start` covers.
pub fn wave_tiles(cells: &Cells, house: &House, start: (i32, i32), r: i32) -> (order: Vec<
    (i32, i32),
>)
    requires
        sound(*cells, cells@.len() as int),
        r >= 0,
    ensures
        forall|t: Tile| #[trigger]
            order@.contains(t) <==> reaches_within(
                wave_step(*cells, *house),
                start,
                t,
                r as int,
            ),
{
    let field = HouseFloor { cells, house };
    assert(flood_step(field) =~= wave_step(*cells, *house));
    flood_within(&field, start, r as u32)
}

/// Styles the tiles of a wave.
fn stamp_wave(
    styles: &mut Vec<Vec<TileStyle>>,
    cells: &Cells,
    house: &House,
    start: (i32, i32),
    r: i32,
    style: TileStyle,
)
    requires
        sound(*cells, cells@.len() as int),
        is_square(*old(styles), cells@.len() as int),
        house_fits(*house, cells@.len() as int),
        house_floor(*cells, *house, start),
        r >= 0,
    ensures
        is_square(*final(styles), cells@.len() as int),
        forall|x: int, z: int|
            in_grid(cells@.len() as int, x, z) ==> #[trigger] value_at(*final(styles), x, z)
                == if reaches_within(
                wave_step(*cells, *house),
                start,
                (x as i32, z as i32),
                r as int,
            ) {
                style
            } else {
                value_at(*old(styles), x, z)
            },
{
    let order = wave_tiles(cells, house, start, r);
    let ghost n = cells@.len() as int;
    let mut i: usize = 0;
    proof {
        assert forall|t: Tile| #[trigger] order@.contains(t) implies in_grid(
            n,
            t.0 as int,
            t.1 as int,
        ) by {
            waves_stay_near(*cells, *house, start, t, r as int);
            lemma_in_box(*house, n, t.0 as int, t.1 as int);
        }
    }
    while i < order.len()
        invariant
            n == cells@.len(),
            n <= 46340,
            i <= order@.len(),
            is_square(*styles, n),
            forall|t: Tile| #[trigger] order@.contains(t) ==> in_grid(n, t.0 as int, t.1 as int),
            forall|x: int, z: int|
                in_grid(n, x, z) ==> #[trigger] value_at(*styles, x, z) == if order@.take(
                    i as int,
                ).contains((x as i32, z as i32)) {
                    style
                } else {
                    value_at(*old(styles), x, z)
                },
        decreases order@.len() - i,
    {
        let (x, z) = order[i];
        assert(order@.contains(order@[i as int]));
        let ghost before = *styles;
        put(styles, x, z, style);
        proof {
            let a = order@.take(i as int);
            let b = order@.take(i + 1);
            assert(b =~= a.push((x, z)));
            assert forall|u: int, w: int| in_grid(n, u, w) implies #[trigger] value_at(
                *styles,
                u,
                w,
            ) == if b.contains((u as i32, w as i32)) {
                style
            } else {
                value_at(*old(styles), u, w)
            } by {
                let t = (u as i32, w as i32);
                assert(value_at(before, u, w) == if a.contains(t) {
                    style
                } else {
                    value_at(*old(styles), u, w)
                });
                if a.contains(t) {
                    let k = choose|k: int| 0 <= k < a.len() && a[k] == t;
                    assert(b[k] == t);
                }
                if b.contains(t) {
                    let k = choose|k: int| 0 <= k < b.len() && b[k] == t;
                    if k < a.len() {
                        assert(a[k] == t);
                    }
                }
                assert(b[i as int] == (x, z));
            }
        }
        i += 1;
    }
    assert(order@.take(i as int) =~= order@);
}

/// Whether `t` is the open floor of the house that is nearest to its center, the first one
/// row by row among equals.
pub open spec fn is_center_floor(cells: Cells, house: House, t: Tile) -> bool {
    let c = (((house.x0 + house.x1) / 2) as i32, ((house.z0 + house.z1) / 2) as i32);
    &&& house_floor(cells, house, t)
    &&& forall|u: Tile| #[trigger]
        house_floor(cells, house, u) ==> tile_distance(c, t) < tile_distance(c, u) || tile_distance(
            c,
            t,
        ) == tile_distance(c, u) && !(u.1 < t.1 || u.1 == t.1 && u.0 < t.0)
}

fn center_floor(cells: &Cells, house: &House) -> (found: Option<(i32, i32)>)
    requires
        sound(*cells, cells@.len() as int),
        house_fits(*house, cells@.len() as int),
    ensures
        match found {
            Some(t) => is_center_floor(*cells, *house, t),
            None => forall|u: Tile| !#[trigger] house_floor(*cells, *house, u),
        },
{
    let (cx, cz) = house.center();
    let ghost c: Tile = (cx, cz);
    let ghost n = cells@.len() as int;
    let mut best: Option<(i32, i32)> = None;
    let mut best_distance: i32 = 0;
    let mut z: i32 = house.z0;
    while z <= house.z1
        invariant
            sound(*cells, n),
            n == cells@.len(),
            house_fits(*house, n),
            c == (cx, cz),
            0 <= cx < n,
            0 <= cz < n,
            house.z0 <= z <= house.z1 + 1,
            nearest_before(*cells, *house, c, best, best_distance as int, house.x0 as int, z as int),
        decreases house.z1 + 1 - z,
    {
        let mut x: i32 = house.x0;
        while x <= house.x1
            invariant
                sound(*cells, n),
                n == cells@.len(),
                house_fits(*house, n),
                c == (cx, cz),
                0 <= cx < n,
                0 <= cz < n,
                house.z0 <= z <= house.z1,
                house.x0 <= x <= house.x1 + 1,
                nearest_before(*cells, *house, c, best, best_distance as int, x as int, z as int),
            decreases house.x1 + 1 - x,
        {
            let ghost old_best = best;
            let ghost old_distance = best_distance;
            if house.contains(x, z) && get_tile(cells, x, z) == DraftTile::Open {
                let d: i32 = crate::map::map_generator::step_seeds::manhattan((cx, cz), (x, z));
                if best.is_none() || d < best_distance {
                    best = Some((x, z));
                    best_distance = d;
                }
                assert(house_floor(*cells, *house, (x, z)));
            }
            proof {
                assert forall|u: Tile| #[trigger] house_floor(*cells, *house, u) && (u.1 < z || u.1 == z
                    && u.0 < x + 1) implies (u == (x, z) || u.1 < z || u.1 == z && u.0 < x) by {}
            }
            x += 1;
        }
        proof {
            assert forall|u: Tile| #[trigger] house_floor(*cells, *house, u) && (u.1 < z + 1 || u.1 == z
                + 1 && u.0 < house.x0) implies (u.1 < z || u.1 == z && u.0 < house.x1 + 1) by {
                lemma_in_box(*house, n, u.0 as int, u.1 as int);
            }
        }
        z += 1;
    }
    proof {
        assert forall|u: Tile| #[trigger] house_floor(*cells, *house, u) implies (u.1 < z || u.1 == z
            && u.0 < house.x0) by {
            lemma_in_box(*house, n, u.0 as int, u.1 as int);
        }
    }
    best
}

/// The nearest floor among the cells that are read before (x, z).
spec fn nearest_before(
    cells: Cells,
    house: House,
    c: Tile,
    best: Option<Tile>,
    distance: int,
    x: int,
    z: int,
) -> bool {
    match best {
        Some(t) => {
            &&& house_floor(cells, house, t)
            &&& distance == tile_distance(c, t)
            &&& t.1 < z || t.1 == z && t.0 < x
            &&& forall|u: Tile| #[trigger]
                house_floor(cells, house, u) && (u.1 < z || u.1 == z && u.0 < x) ==> distance
                    < tile_distance(c, u) || distance == tile_distance(c, u) && !(u.1 < t.1 || u.1
                    == t.1 && u.0 < t.0)
        },
        None => forall|u: Tile| #[trigger]
            house_floor(cells, house, u) ==> !(u.1 < z || u.1 == z && u.0 < x),
    }
}

/// Open floor of the house that is nearest to its center.
pub fn house_center_floor_tile(draft: &MapDraft, house: &House) -> (found: Option<(i32, i32)>)
    requires
        draft.wf(),
        house_fits(*house, draft.size as int),
    ensures
        match found {
            Some(t) => is_center_floor(draft.cells, *house, t),
            None => forall|u: Tile| !#[trigger] house_floor(draft.cells, *house, u),
        },
{
    center_floor(&draft.cells, house)
}

/// Whether the glass wave of the house covers the tile: around its center, if it is large
/// enough.
pub open spec fn in_glass(cells: Cells, house: House, r: int, t: Tile) -> bool {
    house.footprint_area >= 30 && exists|c: Tile| #[trigger]
        is_center_floor(cells, house, c) && reaches_within(wave_step(cells, house), c, t, r)
}

/// Whether the marble wave of the house covers the tile: from the floor of its doorway.
pub open spec fn in_marble(cells: Cells, house: House, r: int, t: Tile) -> bool {
    match house.entry {
        Some(ep) => match entry_floor(cells, ep, 0) {
            Some(p) => house.has(p.0, p.1) && reaches_within(
                wave_step(cells, house),
                (p.0 as i32, p.1 as i32),
                t,
                r,
            ),
            None => false,
        },
        None => false,
    }
}

/// The floor style of a tile after the waves of the first `n` houses.
pub open spec fn crawled(
    cells: Cells,
    houses: Seq<House>,
    radii: Seq<(i32, i32)>,
    n: nat,
    t: Tile,
    before: TileStyle,
) -> TileStyle
    decreases n,
{
    if n == 0 {
        before
    } else if in_marble(cells, houses[n - 1], radii[n - 1].1 as int, t) {
        TileStyle::FloorMarble
    } else if in_glass(cells, houses[n - 1], radii[n - 1].0 as int, t) {
        TileStyle::FloorGlass
    } else {
        crawled(cells, houses, radii, (n - 1) as nat, t, before)
    }
}

/// Whether every radius lies in the range that is rolled.
pub open spec fn wave_radii(radii: Seq<(i32, i32)>) -> bool {
    forall|i: int|
        0 <= i < radii.len() ==> 3 <= (#[trigger] radii[i]).0 <= 5 && 3 <= radii[i].1 <= 5
}

/// The waves of one house.
fn wave_house(
    styles: &mut Vec<Vec<TileStyle>>,
    cells: &Cells,
    house: &House,
    glass: i32,
    marble: i32,
)
    requires
        sound(*cells, cells@.len() as int),
        is_square(*old(styles), cells@.len() as int),
        house_fits(*house, cells@.len() as int),
        entry_near(*house),
        glass >= 0,
        marble >= 0,
    ensures
        is_square(*final(styles), cells@.len() as int),
        forall|x: int, z: int|
            in_grid(cells@.len() as int, x, z) ==> #[trigger] value_at(*final(styles), x, z) == ({
                let t = (x as i32, z as i32);
                if in_marble(*cells, *house, marble as int, t) {
                    TileStyle::FloorMarble
                } else if in_glass(*cells, *house, glass as int, t) {
                    TileStyle::FloorGlass
                } else {
                    value_at(*old(styles), x, z)
                }
            }),
{
    let ghost n = cells@.len() as int;
    if house.supports_center_glass_wave() {
        if let Some(center) = center_floor(cells, house) {
            stamp_wave(styles, cells, house, center, glass, TileStyle::FLOOR_GLASS);
            proof {
                assert forall|t: Tile| #[trigger] in_glass(*cells, *house, glass as int, t)
                    == reaches_within(wave_step(*cells, *house), center, t, glass as int) by {
                    if in_glass(*cells, *house, glass as int, t) {
                        let c = choose|c: Tile| #[trigger]
                            is_center_floor(*cells, *house, c) && reaches_within(
                                wave_step(*cells, *house),
                                c,
                                t,
                                glass as int,
                            );
                        lemma_one_center(*cells, *house, c, center);
                    }
                    assert(is_center_floor(*cells, *house, center));
                }
            }
        } else {
            assert(forall|t: Tile| !#[trigger] in_glass(*cells, *house, glass as int, t));
        }
    }
    let ghost mid = *styles;
    assert(forall|x: int, z: int|
        in_grid(n, x, z) ==> #[trigger] value_at(mid, x, z) == if in_glass(
            *cells,
            *house,
            glass as int,
            (x as i32, z as i32),
        ) {
            TileStyle::FloorGlass
        } else {
            value_at(*old(styles), x, z)
        });
    if let Some(ep) = &house.entry {
        if let Some(start) = entry_interior_tile(cells, ep) {
            if house.contains(start.0, start.1) {
                stamp_wave(styles, cells, house, start, marble, TileStyle::FLOOR_MARBLE);
            }
        }
    }
    proof {
        assert forall|x: int, z: int| in_grid(n, x, z) implies #[trigger] value_at(*styles, x, z)
            == ({
            let t = (x as i32, z as i32);
            if in_marble(*cells, *house, marble as int, t) {
                TileStyle::FloorMarble
            } else if in_glass(*cells, *house, glass as int, t) {
                TileStyle::FloorGlass
            } else {
                value_at(*old(styles), x, z)
            }
        }) by {
            assert(value_at(mid, x, z) == value_at(mid, x, z));
        }
    }
}

proof fn lemma_one_center(cells: Cells, house: House, a: Tile, b: Tile)
    requires
        is_center_floor(cells, house, a),
        is_center_floor(cells, house, b),
    ensures
        a == b,
{
    assert(house_floor(cells, house, a) && house_floor(cells, house, b));
}

/// Whether the floor waves went over all houses.
pub open spec fn homes_crawled(before: MapDraft, after: MapDraft) -> bool {
    &&& after == (MapDraft {
        floor_styles: after.floor_styles,
        rng: after.rng,
        ..before
    })
    &&& exists|radii: Seq<(i32, i32)>|
        #![trigger wave_radii(radii)]
        {
            &&& radii.len() == before.houses@.len()
            &&& wave_radii(radii)
            &&& forall|x: int, z: int|
                in_grid(before.size as int, x, z) ==> #[trigger] after.style(x, z)
                    == crawled(
                    before.cells,
                    before.houses@,
                    radii,
                    radii.len(),
                    (x as i32, z as i32),
                    before.style(x, z),
                )
        }
}

impl MapDraft {
    /// Floor waves of every house: glass around the center of large houses, marble from the
    /// main entry; only open floor inside the footprint is styled.
    pub fn step_home_crawlers(&mut self)
        requires
            old(self).wf(),
            forall|i: int|
                0 <= i < old(self).houses@.len() ==> entry_near(#[trigger] old(self).houses@[i]),
        ensures
            final(self).wf(),
            homes_crawled(*old(self), *final(self)),
    {
        let ghost mut radii: Seq<(i32, i32)> = seq![];
        let mut i: usize = 0;
        while i < self.houses.len()
            invariant
                self.wf(),
                *self == (MapDraft {
                    floor_styles: self.floor_styles,
                    rng: self.rng,
                    ..*old(self)
                }),
                i <= self.houses@.len(),
                radii.len() == i,
                wave_radii(radii),
                forall|k: int|
                    0 <= k < self.houses@.len() ==> entry_near(#[trigger] self.houses@[k]),
                forall|x: int, z: int|
                    in_grid(self.size as int, x, z) ==> #[trigger] value_at(
                        self.floor_styles,
                        x,
                        z,
                    ) == crawled(
                        self.cells,
                        self.houses@,
                        radii,
                        i as nat,
                        (x as i32, z as i32),
                        old(self).style(x, z),
                    ),
            decreases self.houses@.len() - i,
        {
            let glass: i32 = rng::range(
                &mut self.rng,
                HOME_CRAWLER_WAVE_MIN,
                HOME_CRAWLER_WAVE_MAX,
            );
            let marble: i32 = rng::range(
                &mut self.rng,
                HOME_CRAWLER_WAVE_MIN,
                HOME_CRAWLER_WAVE_MAX,
            );
            let ghost before = self.floor_styles;
            assert(house_fits(self.houses@[i as int], self.size as int));
            assert(entry_near(self.houses@[i as int]));
            wave_house(&mut self.floor_styles, &self.cells, &self.houses[i], glass, marble);
            proof {
                let old_radii = radii;
                radii = radii.push((glass, marble));
                assert forall|x: int, z: int|
                    in_grid(self.size as int, x, z) implies #[trigger] value_at(
                    self.floor_styles,
                    x,
                    z,
                ) == crawled(
                    self.cells,
                    self.houses@,
                    radii,
                    (i + 1) as nat,
                    (x as i32, z as i32),
                    old(self).style(x, z),
                ) by {
                    assert(value_at(before, x, z) == value_at(before, x, z));
                    lemma_crawled_prefix(
                        self.cells,
                        self.houses@,
                        old_radii,
                        radii,
                        i as nat,
                        (x as i32, z as i32),
                        old(self).style(x, z),
                    );
                }
            }
            i += 1;
        }
        assert forall|x: int, z: int| in_grid(self.size as int, x, z) implies #[trigger] self.style(
            x,
            z,
        ) == crawled(
            self.cells,
            self.houses@,
            radii,
            radii.len(),
            (x as i32, z as i32),
            old(self).style(x, z),
        ) by {
            assert(value_at(self.floor_styles, x, z) == self.style(x, z));
        }
    }
}

proof fn lemma_crawled_prefix(
    cells: Cells,
    houses: Seq<House>,
    a: Seq<(i32, i32)>,
    b: Seq<(i32, i32)>,
    n: nat,
    t: Tile,
    before: TileStyle,
)
    requires
        n <= a.len(),
        n <= b.len(),
        forall|i: int| 0 <= i < n ==> a[i] == b[i],
    ensures
        crawled(cells, houses, a, n, t, before) == crawled(cells, houses, b, n, t, before),
    decreases n,
{
    if n > 0 {
        lemma_crawled_prefix(cells, houses, a, b, (n - 1) as nat, t, before);
    }
}

} // verus!
