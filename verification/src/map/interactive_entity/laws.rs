//! What holds of entities whatever the world: which of them a search finds, and that stations
//! stand just where the world has their cells.
use vstd::prelude::*;

use crate::map::hypermap::{chunk_of, local_of, ChunkCoord, Hypermap, LocalCoord};
use crate::map::hypermap_world::streaming::targets_of;
use crate::map::interactive_entity::coordinates::EntityCoordinates;
use crate::map::interactive_entity::entity_map::{
    kind_left_out, kind_only, of_kind, InteractiveEntityMap,
};
use crate::map::interactive_entity::kinds::{
    EntityType, InteractiveEntity, InteractiveEntityEntry,
};
use crate::map::interactive_entity::locators::{
    at_hand, ground_step, loaded_walkable, on_screen, passing, walk_reaches, within_radius,
};
use crate::map::interactive_entity::records::{records_at, EntityRecord};
use crate::map::interactive_entity::station_queues::aged;
use crate::map::interactive_entity::sync::{
    asked_for, in_chunks, put_up, rebuilt, station_facing, taken_down,
};
use crate::map::interactive_entity::tile_list::picked;
use crate::map::search::{adjacent, tile_distance, Tile};
use crate::map::world_map::{CellType, ChargerFacing};
use crate::reach::{is_walk, joined, lemma_reaches_self, walks};

verus! {

/// A search keeps the entries that pass its test, in their order.
pub proof fn searches_keep_what_passes(
    entries: Seq<InteractiveEntityEntry>,
    test: spec_fn(InteractiveEntityEntry) -> bool,
    n: nat,
)
    requires
        n <= entries.len(),
    ensures
        passing(entries, test, n) == entries.take(n as int).filter(test),
    decreases n,
{
    reveal(Seq::filter);
    if n > 0 {
        searches_keep_what_passes(entries, test, (n - 1) as nat);
        assert(entries.take(n as int).drop_last() =~= entries.take(n - 1));
    }
    assert(passing(entries, test, n) =~= entries.take(n as int).filter(test));
}

proof fn lemma_picked(
    entries: Seq<InteractiveEntityEntry>,
    kind: EntityType,
    wanted: bool,
    n: nat,
)
    requires
        n <= entries.len(),
    ensures
        picked(entries, of_kind(entries, kind), wanted, n) == entries.take(n as int).filter(
            |e: InteractiveEntityEntry| (e.entity_type == kind) == wanted,
        ),
    decreases n,
{
    reveal(Seq::filter);
    let test = |e: InteractiveEntityEntry| (e.entity_type == kind) == wanted;
    if n > 0 {
        lemma_picked(entries, kind, wanted, (n - 1) as nat);
        assert(entries.take(n as int).drop_last() =~= entries.take(n - 1));
        assert(of_kind(entries, kind)[n - 1] == (entries[n - 1].entity_type == kind));
    }
    assert(picked(entries, of_kind(entries, kind), wanted, n) =~= entries.take(n as int).filter(test));
}

/// The entries of a tile fall into those of a kind and the others, each in their order.
pub proof fn kinds_part_the_entries(entries: Seq<InteractiveEntityEntry>, kind: EntityType)
    ensures
        kind_only(entries, kind) == entries.filter(
            |e: InteractiveEntityEntry| e.entity_type == kind,
        ),
        kind_left_out(entries, kind) == entries.filter(
            |e: InteractiveEntityEntry| e.entity_type != kind,
        ),
{
    lemma_picked(entries, kind, true, entries.len());
    lemma_picked(entries, kind, false, entries.len());
    assert(entries.take(entries.len() as int) =~= entries);
    let (yes, only) = (
        |e: InteractiveEntityEntry| (e.entity_type == kind) == true,
        |e: InteractiveEntityEntry| e.entity_type == kind,
    );
    let (no, others) = (
        |e: InteractiveEntityEntry| (e.entity_type == kind) == false,
        |e: InteractiveEntityEntry| e.entity_type != kind,
    );
    assert(yes =~= only);
    assert(no =~= others);
}

/// Records are told apart by their tile, in their order.
pub proof fn records_belong_to_their_tile(
    records: Seq<EntityRecord>,
    c: EntityCoordinates,
    n: nat,
)
    requires
        n <= records.len(),
    ensures
        records_at(records, c, n) == records.take(n as int).filter(
            |r: EntityRecord| r.coordinates == c,
        ),
    decreases n,
{
    reveal(Seq::filter);
    if n > 0 {
        records_belong_to_their_tile(records, c, (n - 1) as nat);
        assert(records.take(n as int).drop_last() =~= records.take(n - 1));
    }
    assert(records_at(records, c, n) =~= records.take(n as int).filter(
        |r: EntityRecord| r.coordinates == c,
    ));
}

/// A radius is a straight distance: an entity straight to one side is within it just where it
/// is at most that many tiles away, and one on another floor never is.
pub proof fn radii_are_straight_distances(
    entry: InteractiveEntityEntry,
    center: EntityCoordinates,
    radius: int,
)
    requires
        0 <= radius,
    ensures
        ({
            let dx = entry.coordinates.x - center.x;
            let dy = entry.coordinates.y - center.y;
            let level = entry.coordinates.floor == center.floor;
            &&& dy == 0 ==> (within_radius(entry, center, radius) <==> level && -radius <= dx
                <= radius)
            &&& dx == 0 ==> (within_radius(entry, center, radius) <==> level && -radius <= dy
                <= radius)
            &&& within_radius(entry, center, radius) ==> level && -radius <= dx <= radius && -radius
                <= dy <= radius
        }),
{
    let dx = entry.coordinates.x - center.x;
    let dy = entry.coordinates.y - center.y;
    lemma_square(dx, radius);
    lemma_square(dy, radius);
    assert(0 <= dx * dx && 0 <= dy * dy) by (nonlinear_arith);
    assert(0int * 0 == 0);
}

proof fn lemma_square(d: int, r: int)
    requires
        0 <= r,
    ensures
        d * d <= r * r <==> -r <= d <= r,
{
    assert((d * d <= r * r) == (-r <= d <= r)) by (nonlinear_arith)
        requires
            0 <= r,
    ;
}

/// What is on screen around a place is its own chunk and the nearer neighbour on each axis.
pub proof fn screens_show_the_nearer_chunks(
    entry: InteractiveEntityEntry,
    center: EntityCoordinates,
)
    requires
        -0x7fff_0000 <= center.x <= 0x7fff_0000,
        -0x7fff_0000 <= center.y <= 0x7fff_0000,
    ensures
        on_screen(entry, center) <==> {
            let (dx, dy) = (
                entry.coordinates.x as int / 128 - center.x as int / 128,
                entry.coordinates.y as int / 128 - center.y as int / 128,
            );
            ||| dx == 0 && dy == 0
            ||| dy == 0 && dx == (if center.x as int % 128 < 64 {
                -1int
            } else {
                1
            })
            ||| dx == 0 && dy == (if center.y as int % 128 < 64 {
                -1int
            } else {
                1
            })
        },
{
    let targets = targets_of(
        chunk_of(center.x as int, center.y as int),
        local_of(center.x as int, center.y as int),
    );
    let c = chunk_of(entry.coordinates.x as int, entry.coordinates.y as int);
    assert(targets.contains(c) <==> c == targets[0] || c == targets[1] || c == targets[2]);
}

/// A cell asks for a station of its own kind, with its own facing, and no other cell does.
pub proof fn cells_ask_for_their_station(cell: CellType, kind: EntityType, facing: ChargerFacing)
    ensures
        station_facing(cell, kind) == Some(facing) <==> {
            ||| kind == EntityType::Charger && cell == CellType::Charger(facing)
            ||| kind == EntityType::PartsDepot && cell == CellType::PartsDepot(facing)
        },
{
}

/// A place asks for a station just where its chunk is held and its cell, column by column and
/// row by row inside the chunk, is one.
pub proof fn places_ask_by_their_cell(
    map: Hypermap<CellType>,
    kind: EntityType,
    place: EntityCoordinates,
    facing: ChargerFacing,
    chunk: ChunkCoord,
    local: LocalCoord,
)
    requires
        local.in_chunk(),
        place.x == 128 * chunk.x + local.x,
        place.y == 128 * chunk.y + local.y,
    ensures
        asked_for(map, kind, place) == Some(facing) <==> {
            &&& 0 <= place.floor < 10
            &&& map.has(chunk)
            &&& map.chunk(chunk).at(local, place.floor as int) == (if kind == EntityType::Charger {
                CellType::Charger(facing)
            } else {
                CellType::PartsDepot(facing)
            })
        },
{
    assert(place.x as int / 128 == chunk.x && place.x as int % 128 == local.x);
    assert(place.y as int / 128 == chunk.y && place.y as int % 128 == local.y);
    assert(chunk_of(place.x as int, place.y as int) == chunk);
    assert(local_of(place.x as int, place.y as int) == local);
}

/// Stations stand just where the world has their cells: after the stations of a kind were
/// rebuilt in some chunks, a tile of these chunks holds a station of that kind just where its
/// cell is one, exactly one, free, unused and backing onto the cell's wall; the entities of
/// other kinds stay.
pub proof fn stations_mirror_the_world(
    before: InteractiveEntityMap,
    after: InteractiveEntityMap,
    map: Hypermap<CellType>,
    kind: EntityType,
    chunks: Seq<ChunkCoord>,
    p: EntityCoordinates,
)
    requires
        rebuilt(before, after, map, kind, chunks),
        in_chunks(chunks, p),
    ensures
        kind_only(after.at(p), kind).len() == (if asked_for(map, kind, p) is Some {
            1nat
        } else {
            0
        }),
        asked_for(map, kind, p) is Some ==> {
            let entry = after.at(p).last();
            &&& entry.entity_type == kind
            &&& entry.coordinates == p
            &&& entry.entity matches InteractiveEntity::Charger(c) ==> asked_for(map, kind, p) == Some(
                c.edge(),
            ) && c.docked() is None && c.energy() == 0
            &&& entry.entity matches InteractiveEntity::PartsDepot(d) ==> asked_for(map, kind, p)
                == Some(d.edge())
        },
        kind_left_out(after.at(p), kind) == kind_left_out(before.at(p), kind),
{
    let old = taken_down(before, kind, chunks, p);
    let facing = asked_for(map, kind, p);
    assert(put_up(old, after.at(p), kind, p, facing));
    kinds_part_the_entries(before.at(p), kind);
    kinds_part_the_entries(old, kind);
    kinds_part_the_entries(after.at(p), kind);
    let (only, others) = (
        |e: InteractiveEntityEntry| e.entity_type == kind,
        |e: InteractiveEntityEntry| e.entity_type != kind,
    );
    lemma_filtered(before.at(p), kind);
    assert(old == before.at(p).filter(others));
    reveal(Seq::filter);
    if facing is Some {
        assert(after.at(p).drop_last() == old);
        assert(after.at(p).last().entity_type == kind);
        assert(after.at(p).filter(only) == old.filter(only).push(after.at(p).last()));
        assert(after.at(p).filter(others) == old.filter(others));
    }
}

proof fn lemma_filtered(entries: Seq<InteractiveEntityEntry>, kind: EntityType)
    ensures
        ({
            let others = |e: InteractiveEntityEntry| e.entity_type != kind;
            let only = |e: InteractiveEntityEntry| e.entity_type == kind;
            let rest = entries.filter(others);
            rest.filter(only).len() == 0 && rest.filter(others) == rest
        }),
    decreases entries.len(),
{
    reveal(Seq::filter);
    let others = |e: InteractiveEntityEntry| e.entity_type != kind;
    let only = |e: InteractiveEntityEntry| e.entity_type == kind;
    if entries.len() > 0 {
        lemma_filtered(entries.drop_last(), kind);
        let rest = entries.drop_last().filter(others);
        if others(entries.last()) {
            let all = rest.push(entries.last());
            assert(all.drop_last() =~= rest);
            assert(all.filter(others) =~= all);
        }
    }
}

/// A timer runs on by the time that passed and stops only at the longest time it can hold.
pub proof fn timers_run_by_the_clock(idle: u64, dt: u64)
    ensures
        aged(idle, dt) <= idle + dt,
        aged(idle, dt) >= idle,
        aged(idle, dt) == idle + dt || aged(idle, dt) == u64::MAX,
        aged(idle, 0) == idle,
{
}

proof fn lemma_walk(map: Hypermap<bool>, path: Seq<Tile>, i: int)
    requires
        0 <= i < path.len(),
        is_walk(ground_step(map), path),
    ensures
        tile_distance(path[0], path[i]) <= i,
        i > 0 ==> loaded_walkable(map, path[i]),
    decreases i,
{
    if i > 0 {
        lemma_walk(map, path, i - 1);
        assert(joined(ground_step(map), path, i - 1));
    }
}

/// A walk stays on held, walkable ground and takes no tile farther than its number of moves; it
/// reaches its own start just where that can be stood on.
pub proof fn walks_stay_on_held_ground(map: Hypermap<bool>, start: Tile, n: int, t: Tile)
    requires
        0 <= n,
    ensures
        walk_reaches(map, start, n, t) ==> map.has(chunk_of(t.0 as int, t.1 as int)) && map.tile(
            t.0 as int,
            t.1 as int,
            0,
        ) && tile_distance(start, t) <= n,
        walk_reaches(map, start, n, start) <==> map.has(chunk_of(start.0 as int, start.1 as int))
            && map.tile(start.0 as int, start.1 as int, 0),
{
    lemma_reaches_self(ground_step(map), start);
    if walk_reaches(map, start, n, t) {
        let path = choose|path: Seq<Tile>|
            walks(ground_step(map), start, t, path) && path.len() <= n + 1;
        lemma_walk(map, path, path.len() - 1);
    }
}

/// An entity is at hand where its own tile or one beside it is reached.
pub proof fn beside_is_at_hand(map: Hypermap<bool>, start: Tile, n: int, t: Tile, u: Tile)
    requires
        walk_reaches(map, start, n, u),
        tile_distance(t, u) <= 1,
    ensures
        at_hand(map, start, n, t),
{
    if tile_distance(t, u) == 1 {
        assert(adjacent(t, u) && walk_reaches(map, start, n, u));
    } else {
        assert(t == u);
    }
}

} // verus!
