//! Finding nearby entities: by distance, by what is on screen, and by what can be walked to.
use vstd::prelude::*;

use crate::flood::{flood_step, flood_within, TileField, TileSet};
use crate::map::hypermap::{chunk_of, local_of, world_to_chunk_local, ChunkCoord, Hypermap};
use crate::map::hypermap_world::streaming::{lists, target_chunks_for, targets_of};
use crate::map::interactive_entity::coordinates::EntityCoordinates;
use crate::map::interactive_entity::entity_map::InteractiveEntityMap;
use crate::map::interactive_entity::kinds::{EntityType, InteractiveEntityEntry};
use crate::map::search::{adjacent, Tile};
use crate::reach::reaches_within;

verus! {

/// Those of the first `n` entries that pass the test, in order.
pub open spec fn passing(
    entries: Seq<InteractiveEntityEntry>,
    test: spec_fn(InteractiveEntityEntry) -> bool,
    n: nat,
) -> Seq<InteractiveEntityEntry>
    decreases n,
{
    if n == 0 {
        seq![]
    } else {
        let before = passing(entries, test, (n - 1) as nat);
        if test(entries[n - 1]) {
            before.push(entries[n - 1])
        } else {
            before
        }
    }
}

/// The entries behind the references.
pub open spec fn behind(refs: Seq<&InteractiveEntityEntry>) -> Seq<InteractiveEntityEntry> {
    refs.map_values(|e: &InteractiveEntityEntry| *e)
}

/// Whether the entry is of the asked kind, if one is asked for.
pub open spec fn kind_fits(entry: InteractiveEntityEntry, kind: Option<EntityType>) -> bool {
    kind is None || kind == Some(entry.entity_type)
}

fn is_kind(entry: &InteractiveEntityEntry, kind: Option<EntityType>) -> (fits: bool)
    ensures
        fits == kind_fits(*entry, kind),
{
    match kind {
        Some(k) => entry.entity_type == k,
        None => true,
    }
}

impl InteractiveEntityMap {
    /// The entries on the first `n` listed tiles that pass the test, tile by tile.
    pub open spec fn found_on(self, test: spec_fn(InteractiveEntityEntry) -> bool, n: nat) -> Seq<
        InteractiveEntityEntry,
    >
        decreases n,
    {
        if n == 0 {
            seq![]
        } else {
            let entries = self.at(self.tiles_in_order()[n - 1]);
            self.found_on(test, (n - 1) as nat) + passing(entries, test, entries.len())
        }
    }

    /// All entries that pass the test, tile by tile.
    pub open spec fn found(self, test: spec_fn(InteractiveEntityEntry) -> bool) -> Seq<
        InteractiveEntityEntry,
    > {
        self.found_on(test, self.tiles_in_order().len())
    }

    fn select<'a, F: Fn(&InteractiveEntityEntry) -> bool>(
        &'a self,
        keep: F,
        Ghost(test): Ghost<spec_fn(InteractiveEntityEntry) -> bool>,
    ) -> (hits: Vec<&'a InteractiveEntityEntry>)
        requires
            self.wf(),
            forall|e: InteractiveEntityEntry| #[trigger] call_requires(keep, (&e,)),
            forall|e: InteractiveEntityEntry, r: bool| #[trigger]
                call_ensures(keep, (&e,), r) ==> r == test(e),
        ensures
            behind(hits@) == self.found(test),
    {
        let mut hits: Vec<&'a InteractiveEntityEntry> = Vec::new();
        let keys = self.tiles.keys();
        let mut k: usize = 0;
        assert(behind(hits@) =~= Seq::<InteractiveEntityEntry>::empty());
        while k < keys.len()
            invariant
                k <= keys@.len(),
                keys@ == self.tiles_in_order(),
                behind(hits@) == self.found_on(test, k as nat),
                forall|e: InteractiveEntityEntry| #[trigger] call_requires(keep, (&e,)),
                forall|e: InteractiveEntityEntry, r: bool| #[trigger]
                    call_ensures(keep, (&e,), r) ==> r == test(e),
            decreases keys@.len() - k,
        {
            let entries = self.entities_at(keys[k]);
            let ghost before = behind(hits@);
            let mut i: usize = 0;
            assert(before + passing(entries@, test, 0) =~= before);
            while i < entries.len()
                invariant
                    i <= entries@.len(),
                    behind(hits@) == before + passing(entries@, test, i as nat),
                    forall|e: InteractiveEntityEntry| #[trigger] call_requires(keep, (&e,)),
                    forall|e: InteractiveEntityEntry, r: bool| #[trigger]
                        call_ensures(keep, (&e,), r) ==> r == test(e),
                decreases entries@.len() - i,
            {
                let entry: &'a InteractiveEntityEntry = &entries[i];
                let ghost prior = hits@;
                assert(call_requires(keep, (entry,)));
                if keep(entry) {
                    hits.push(entry);
                    proof {
                        assert(behind(hits@) =~= behind(prior).push(*entry));
                    }
                }
                i += 1;
                proof {
                    assert(behind(hits@) =~= before + passing(entries@, test, i as nat));
                }
            }
            k += 1;
        }
        hits
    }

    /// Every entity entry across all hypertiles.
    pub fn iter(&self) -> (entries: Vec<&InteractiveEntityEntry>)
        requires
            self.wf(),
        ensures
            behind(entries@) == self.found(|e: InteractiveEntityEntry| true),
    {
        let keep = |entry: &InteractiveEntityEntry| -> (hit: bool)
            ensures
                hit,
        {
            true
        };
        self.select(keep, Ghost(|e: InteractiveEntityEntry| true))
    }
}

/// Whether the entry is on the center's floor, no further from it than the radius.
pub open spec fn within_radius(
    entry: InteractiveEntityEntry,
    center: EntityCoordinates,
    radius: int,
) -> bool {
    let dx = entry.coordinates.x - center.x;
    let dy = entry.coordinates.y - center.y;
    entry.coordinates.floor == center.floor && dx * dx + dy * dy <= radius * radius
}

fn square(a: i64) -> (r: i128)
    requires
        -0x1_0000_0000 <= a <= 0x1_0000_0000,
    ensures
        r == a * a,
        0 <= r <= 0x1_0000_0000_0000_0000,
{
    assert(0 <= a * a <= 0x1_0000_0000_0000_0000) by (nonlinear_arith)
        requires
            -0x1_0000_0000 <= a <= 0x1_0000_0000,
    ;
    a as i128 * a as i128
}

fn near(entry: &InteractiveEntityEntry, center: EntityCoordinates, radius: i32) -> (hit: bool)
    ensures
        hit == within_radius(*entry, center, radius as int),
{
    let dx: i64 = entry.coordinates.x as i64 - center.x as i64;
    let dy: i64 = entry.coordinates.y as i64 - center.y as i64;
    entry.coordinates.floor == center.floor && square(dx) + square(dy) <= square(radius as i64)
}

impl InteractiveEntityMap {
    /// **Radius-local.** Entities within `radius` tiles (Euclidean) of `center`,
    /// on the *same floor* as `center`. A `radius` of `0` matches only entities on
    /// exactly `center`'s tile.
    pub fn find_within_radius(
        &self,
        center: EntityCoordinates,
        radius: i32,
        kind: Option<EntityType>,
    ) -> (hits: Vec<&InteractiveEntityEntry>)
        requires
            self.wf(),
        ensures
            behind(hits@) == self.found(
                |e: InteractiveEntityEntry| within_radius(e, center, radius as int) && kind_fits(e, kind),
            ),
    {
        let keep = |entry: &InteractiveEntityEntry| -> (hit: bool)
            ensures
                hit == (within_radius(*entry, center, radius as int) && kind_fits(*entry, kind)),
        {
            near(entry, center, radius) && is_kind(entry, kind)
        };
        self.select(
            keep,
            Ghost(
                |e: InteractiveEntityEntry|
                    within_radius(e, center, radius as int) && kind_fits(e, kind),
            ),
        )
    }

    /// **Hypermap-local.** Entities sitting on the chunks the renderer would keep
    /// meshed around `center`: the chunk of `center` plus the prefetch neighbor on
    /// each axis. Chunk selection is XY-only (a chunk spans every
    /// floor), so this does **not** filter by floor.
    pub fn find_in_rendered_chunks(
        &self,
        center: EntityCoordinates,
        kind: Option<EntityType>,
    ) -> (hits: Vec<&InteractiveEntityEntry>)
        requires
            self.wf(),
        ensures
            behind(hits@) == self.found(
                |e: InteractiveEntityEntry| on_screen(e, center) && kind_fits(e, kind),
            ),
    {
        let chunks = rendered_chunks_around(center.x, center.y);
        let keep = |entry: &InteractiveEntityEntry| -> (hit: bool)
            ensures
                hit == (on_screen(*entry, center) && kind_fits(*entry, kind)),
        {
            let (coord, _) = world_to_chunk_local(entry.coordinates.x, entry.coordinates.y);
            lists(&chunks, coord) && is_kind(entry, kind)
        };
        self.select(
            keep,
            Ghost(|e: InteractiveEntityEntry| on_screen(e, center) && kind_fits(e, kind)),
        )
    }
}

/// The chunks that the renderer keeps up around a world tile.
pub fn rendered_chunks_around(world_x: i32, world_y: i32) -> (chunks: Vec<ChunkCoord>)
    ensures
        chunks@ == targets_of(
            chunk_of(world_x as int, world_y as int),
            local_of(world_x as int, world_y as int),
        ),
        chunks@.no_duplicates(),
        chunks@.len() == 3,
{
    let (center, local) = world_to_chunk_local(world_x, world_y);
    target_chunks_for(center, local)
}

/// Whether the entry's chunk is one that the renderer keeps up around the center.
pub open spec fn on_screen(entry: InteractiveEntityEntry, center: EntityCoordinates) -> bool {
    targets_of(
        chunk_of(center.x as int, center.y as int),
        local_of(center.x as int, center.y as int),
    ).contains(chunk_of(entry.coordinates.x as int, entry.coordinates.y as int))
}

/// Whether the tile is walkable ground of a chunk that is held; chunks that are not held
/// cannot be walked on.
pub open spec fn loaded_walkable(map: Hypermap<bool>, t: Tile) -> bool {
    map.has(chunk_of(t.0 as int, t.1 as int)) && map.tile(t.0 as int, t.1 as int, 0)
}

/// The steps of a walk over held ground.
pub open spec fn ground_step(map: Hypermap<bool>) -> spec_fn(Tile, Tile) -> bool {
    |a: Tile, b: Tile| adjacent(a, b) && loaded_walkable(map, b)
}

/// Whether the tile is reached from the start in at most `n` moves over held ground; none is
/// from a start that is not walkable.
pub open spec fn walk_reaches(map: Hypermap<bool>, start: Tile, n: int, t: Tile) -> bool {
    loaded_walkable(map, start) && reaches_within(ground_step(map), start, t, n)
}

struct HeldGround<'a> {
    map: &'a Hypermap<bool>,
}

fn walkable_here(map: &Hypermap<bool>, t: (i32, i32)) -> (yes: bool)
    requires
        map.wf(),
    ensures
        yes == loaded_walkable(*map, t),
{
    let (coord, local) = world_to_chunk_local(t.0, t.1);
    match map.get_chunk(coord) {
        Some(chunk) => *chunk.get_local_floor(local, 0),
        None => false,
    }
}

impl<'a> TileField for HeldGround<'a> {
    closed spec fn valid(&self) -> bool {
        self.map.wf()
    }

    closed spec fn spreads(&self, a: Tile, b: Tile) -> bool {
        adjacent(a, b) && loaded_walkable(*self.map, b)
    }

    closed spec fn denies(&self, a: Tile, b: Tile) -> bool {
        !self.spreads(a, b)
    }

    proof fn spreads_to_neighbours(&self) {
    }

    fn can_spread(&self, a: (i32, i32), b: (i32, i32)) -> (yes: bool) {
        walkable_here(self.map, b)
    }
}

/// Every walkable tile reachable from `start` in at most `max_steps` moves to a neighbor.
/// The empty list if `start` itself is not walkable.
pub fn reachable_tiles_within(
    passability: &Hypermap<bool>,
    start: (i32, i32),
    max_steps: u32,
) -> (tiles: Vec<(i32, i32)>)
    requires
        passability.wf(),
    ensures
        tiles@.no_duplicates(),
        forall|t: Tile| #[trigger]
            tiles@.contains(t) <==> walk_reaches(*passability, start, max_steps as int, t),
{
    if !walkable_here(passability, start) {
        return Vec::new();
    }
    let field = HeldGround { map: passability };
    assert(flood_step(field) =~= ground_step(*passability));
    flood_within(&field, start, max_steps)
}

/// Whether the tile or a neighbor of it is reached.
pub open spec fn at_hand(map: Hypermap<bool>, start: Tile, n: int, t: Tile) -> bool {
    walk_reaches(map, start, n, t) || exists|u: Tile| #[trigger]
        adjacent(t, u) && walk_reaches(map, start, n, u)
}

/// Whether the set holds the tile or a neighbor of it.
pub open spec fn touches(set: Set<Tile>, t: Tile) -> bool {
    set.contains(t) || exists|u: Tile| #[trigger] adjacent(t, u) && set.contains(u)
}

/// `true` if `tile` or any of its 4 neighbors is in `reachable`.
fn tile_or_neighbor_reachable(reachable: &TileSet, tile: (i32, i32)) -> (yes: bool)
    ensures
        yes == touches(reachable@, tile),
{
    let (x, y) = tile;
    if reachable.contains(tile) {
        return true;
    }
    if x < i32::MAX && reachable.contains((x + 1, y)) {
        assert(adjacent(tile, ((x + 1) as i32, y)));
        return true;
    }
    if x > i32::MIN && reachable.contains((x - 1, y)) {
        assert(adjacent(tile, ((x - 1) as i32, y)));
        return true;
    }
    if y < i32::MAX && reachable.contains((x, y + 1)) {
        assert(adjacent(tile, (x, (y + 1) as i32)));
        return true;
    }
    if y > i32::MIN && reachable.contains((x, y - 1)) {
        assert(adjacent(tile, (x, (y - 1) as i32)));
        return true;
    }
    proof {
        assert forall|u: Tile| #[trigger] adjacent(tile, u) implies !reachable@.contains(u) by {
            assert(u == ((x + 1) as i32, y) || u == ((x - 1) as i32, y) || u == (x, (y + 1) as i32)
                || u == (x, (y - 1) as i32));
        }
    }
    false
}

impl InteractiveEntityMap {
    /// **Accessible.** Entities reachable from `start` within `max_steps` 4-neighbor
    /// moves over the `passability` map, restricted to `floor`. An entity counts as
    /// accessible if its own tile or any 4-neighbor of it lies in the reachable set:
    /// interactive entities such as chargers back onto a wall, so their tile is
    /// often itself blocked while an actor stands on the adjacent walkable tile.
    pub fn find_accessible_within(
        &self,
        passability: &Hypermap<bool>,
        start: (i32, i32),
        floor: i32,
        max_steps: u32,
        kind: Option<EntityType>,
    ) -> (hits: Vec<&InteractiveEntityEntry>)
        requires
            self.wf(),
            passability.wf(),
        ensures
            behind(hits@) == self.found(
                |e: InteractiveEntityEntry|
                    e.coordinates.floor == floor && kind_fits(e, kind) && at_hand(
                        *passability,
                        start,
                        max_steps as int,
                        (e.coordinates.x, e.coordinates.y),
                    ),
            ),
    {
        let tiles = reachable_tiles_within(passability, start, max_steps);
        let mut reachable = TileSet::new();
        let mut i: usize = 0;
        assert(reachable@ =~= tiles@.take(0).to_set());
        while i < tiles.len()
            invariant
                i <= tiles@.len(),
                reachable@ == tiles@.take(i as int).to_set(),
            decreases tiles@.len() - i,
        {
            reachable.insert(tiles[i]);
            proof {
                let done = tiles@.take(i as int);
                let next = tiles@.take(i + 1);
                assert(next =~= done.push(tiles@[i as int]));
                assert forall|t: Tile| next.contains(t) <==> done.contains(t) || t
                    == tiles@[i as int] by {
                    if done.contains(t) {
                        let k = choose|k: int| 0 <= k < done.len() && done[k] == t;
                        assert(next[k] == t);
                    }
                    if next.contains(t) {
                        let k = choose|k: int| 0 <= k < next.len() && next[k] == t;
                        if k < i {
                            assert(done[k] == t);
                        }
                    }
                    assert(next[i as int] == tiles@[i as int]);
                }
                assert(reachable@ =~= next.to_set());
            }
            i += 1;
        }
        assert(tiles@.take(i as int) =~= tiles@);
        let keep = |entry: &InteractiveEntityEntry| -> (hit: bool)
            ensures
                hit == (entry.coordinates.floor == floor && kind_fits(*entry, kind) && touches(
                    reachable@,
                    (entry.coordinates.x, entry.coordinates.y),
                )),
        {
            entry.coordinates.floor == floor && is_kind(entry, kind) && tile_or_neighbor_reachable(
                &reachable,
                (entry.coordinates.x, entry.coordinates.y),
            )
        };
        let ghost test = |e: InteractiveEntityEntry|
            e.coordinates.floor == floor && kind_fits(e, kind) && touches(
                reachable@,
                (e.coordinates.x, e.coordinates.y),
            );
        proof {
            assert forall|t: Tile| #[trigger] touches(reachable@, t) == at_hand(
                *passability,
                start,
                max_steps as int,
                t,
            ) by {
                if touches(reachable@, t) && !reachable@.contains(t) {
                    let u = choose|u: Tile| #[trigger] adjacent(t, u) && reachable@.contains(u);
                    assert(tiles@.contains(u));
                }
                if reachable@.contains(t) {
                    assert(tiles@.contains(t));
                }
                if at_hand(*passability, start, max_steps as int, t) && !walk_reaches(
                    *passability,
                    start,
                    max_steps as int,
                    t,
                ) {
                    let u = choose|u: Tile| #[trigger]
                        adjacent(t, u) && walk_reaches(*passability, start, max_steps as int, u);
                    assert(tiles@.contains(u));
                    assert(reachable@.contains(u));
                }
                if walk_reaches(*passability, start, max_steps as int, t) {
                    assert(tiles@.contains(t));
                    assert(reachable@.contains(t));
                }
            }
            assert(test =~= (|e: InteractiveEntityEntry|
                e.coordinates.floor == floor && kind_fits(e, kind) && at_hand(
                    *passability,
                    start,
                    max_steps as int,
                    (e.coordinates.x, e.coordinates.y),
                )));
        }
        self.select(keep, Ghost(test))
    }
}

} // verus!
