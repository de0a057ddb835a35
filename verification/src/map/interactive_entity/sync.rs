//! Stations follow the world's cells: their entities are rebuilt chunk by chunk.
use vstd::prelude::*;

use crate::map::hypermap::{
    chunk_of, floor_in_range, lemma_tile_recovered, local_of, world_to_chunk_local,
    ChunkCoord, Hypermap, HypermapChunk, LocalCoord, HYPERMAP_CHUNK_SIZE,
};
use crate::map::hypermap_world::chunk_cells::passed;
use crate::map::hypermap_world::streaming::lists;
use crate::map::interactive_entity::coordinates::EntityCoordinates;
use crate::map::interactive_entity::entity_map::{
    kind_left_out, kind_only, InteractiveEntityMap,
};
use crate::map::interactive_entity::kinds::{
    ChargerEntity, EntityType, InteractiveEntity, InteractiveEntityBehavior,
    InteractiveEntityEntry, PartsDepotEntity,
};
use crate::map::world_map::{CellType, ChargerFacing};

verus! {

/// The edge that a station of the kind backs onto, if the cell is one.
pub open spec fn station_facing(cell: CellType, kind: EntityType) -> Option<ChargerFacing> {
    match cell {
        CellType::Charger(facing) => if kind == EntityType::Charger {
            Some(facing)
        } else {
            None
        },
        CellType::PartsDepot(facing) => if kind == EntityType::PartsDepot {
            Some(facing)
        } else {
            None
        },
        _ => None,
    }
}

fn facing_of(cell: CellType, kind: EntityType) -> (facing: Option<ChargerFacing>)
    ensures
        facing == station_facing(cell, kind),
{
    match cell {
        CellType::Charger(facing) => if kind == EntityType::Charger {
            Some(facing)
        } else {
            None
        },
        CellType::PartsDepot(facing) => if kind == EntityType::PartsDepot {
            Some(facing)
        } else {
            None
        },
        _ => None,
    }
}

/// Whether the entry is a new station of the kind: an empty, free charger or an unused
/// depot, without properties.
pub open spec fn fresh_station(
    entry: InteractiveEntityEntry,
    kind: EntityType,
    place: EntityCoordinates,
    facing: ChargerFacing,
) -> bool {
    &&& entry.tagged()
    &&& entry.entity_type == kind
    &&& entry.coordinates == place
    &&& !entry.entity.used()
    &&& entry.entity.prop_map() == Map::<Seq<char>, Seq<char>>::empty()
    &&& match entry.entity {
        InteractiveEntity::Charger(c) => c.edge() == facing && c.energy() == 0 && c.limit()
            == 100_000 && c.docked() is None,
        InteractiveEntity::PartsDepot(d) => d.edge() == facing,
    }
}

/// How a tile's entries look after its station was put up, if the cell asks for one.
pub open spec fn put_up(
    before: Seq<InteractiveEntityEntry>,
    after: Seq<InteractiveEntityEntry>,
    kind: EntityType,
    place: EntityCoordinates,
    facing: Option<ChargerFacing>,
) -> bool {
    match facing {
        Some(f) => {
            &&& after.len() == before.len() + 1
            &&& after.drop_last() == before
            &&& fresh_station(after.last(), kind, place, f)
        },
        None => after == before,
    }
}

/// The station that the world's cell at a place asks for.
pub open spec fn asked_for(
    map: Hypermap<CellType>,
    kind: EntityType,
    place: EntityCoordinates,
) -> Option<ChargerFacing> {
    let chunk = chunk_of(place.x as int, place.y as int);
    if floor_in_range(place.floor as int) && map.has(chunk) {
        station_facing(
            map.chunk(chunk).at(local_of(place.x as int, place.y as int), place.floor as int),
            kind,
        )
    } else {
        None
    }
}

/// Whether the chunk's tiles have world coordinates.
pub open spec fn in_world(coord: ChunkCoord) -> bool {
    -0x100_0000 <= coord.x < 0x100_0000 && -0x100_0000 <= coord.y < 0x100_0000
}

fn new_station(kind: EntityType, place: EntityCoordinates, facing: ChargerFacing) -> (entry:
    InteractiveEntityEntry)
    ensures
        fresh_station(entry, kind, place, facing),
{
    match kind {
        EntityType::Charger => InteractiveEntityEntry::new(
            InteractiveEntity::Charger(ChargerEntity::new(place, facing)),
        ),
        EntityType::PartsDepot => InteractiveEntityEntry::new(
            InteractiveEntity::PartsDepot(PartsDepotEntity::new(place, facing)),
        ),
    }
}

/// The place inside its chunk of an entity.
spec fn inside(place: EntityCoordinates) -> LocalCoord {
    local_of(place.x as int, place.y as int)
}

/// Whether the walk over a chunk has come past the place.
spec fn walked(place: EntityCoordinates, coord: ChunkCoord, x: int, y: int, floor: int) -> bool {
    chunk_of(place.x as int, place.y as int) == coord && floor_in_range(place.floor as int)
        && passed(inside(place), place.floor as int, x, y, floor)
}

fn put_up_chunk(
    chunk: &HypermapChunk<CellType>,
    coord: ChunkCoord,
    entities: &mut InteractiveEntityMap,
    kind: EntityType,
)
    requires
        chunk.wf(),
        old(entities).wf(),
        in_world(coord),
    ensures
        final(entities).wf(),
        final(entities).queues == old(entities).queues,
        forall|p: EntityCoordinates|
            put_up(
                old(entities).at(p),
                #[trigger] final(entities).at(p),
                kind,
                p,
                if chunk_of(p.x as int, p.y as int) == coord && floor_in_range(p.floor as int) {
                    station_facing(chunk.at(inside(p), p.floor as int), kind)
                } else {
                    None
                },
            ),
{
    let ghost before = *entities;
    let mut y: i32 = 0;
    while y < HYPERMAP_CHUNK_SIZE
        invariant
            0 <= y <= 128,
            chunk.wf(),
            in_world(coord),
            entities.wf(),
            entities.queues == before.queues,
            forall|p: EntityCoordinates|
                put_up(
                    before.at(p),
                    #[trigger] entities.at(p),
                    kind,
                    p,
                    if walked(p, coord, 0, y as int, 0) {
                        station_facing(chunk.at(inside(p), p.floor as int), kind)
                    } else {
                        None
                    },
                ),
        decreases 128 - y,
    {
        let mut x: i32 = 0;
        while x < HYPERMAP_CHUNK_SIZE
            invariant
                0 <= x <= 128,
                0 <= y < 128,
                chunk.wf(),
                in_world(coord),
                entities.wf(),
                entities.queues == before.queues,
                forall|p: EntityCoordinates|
                    put_up(
                        before.at(p),
                        #[trigger] entities.at(p),
                        kind,
                        p,
                        if walked(p, coord, x as int, y as int, 0) {
                            station_facing(chunk.at(inside(p), p.floor as int), kind)
                        } else {
                            None
                        },
                    ),
            decreases 128 - x,
        {
            let local = LocalCoord::new(x, y);
            let mut floor: i32 = 0;
            while floor < 10
                invariant
                    0 <= floor <= 10,
                    0 <= x < 128,
                    0 <= y < 128,
                    local == (LocalCoord { x, y }),
                    chunk.wf(),
                    in_world(coord),
                    entities.wf(),
                    entities.queues == before.queues,
                    forall|p: EntityCoordinates|
                        put_up(
                            before.at(p),
                            #[trigger] entities.at(p),
                            kind,
                            p,
                            if walked(p, coord, x as int, y as int, floor as int) {
                                station_facing(chunk.at(inside(p), p.floor as int), kind)
                            } else {
                                None
                            },
                        ),
                decreases 10 - floor,
            {
                let cell: CellType = *chunk.get_local_floor(local, floor);
                let place = EntityCoordinates::new(coord.x * 128 + x, coord.y * 128 + y, floor);
                let ghost mid = *entities;
                proof {
                    assert(chunk_of(place.x as int, place.y as int) == coord);
                    assert(inside(place) == local);
                    assert forall|p: EntityCoordinates|
                        walked(p, coord, x as int, y as int, floor + 1) implies p == place || walked(
                        p,
                        coord,
                        x as int,
                        y as int,
                        floor as int,
                    ) by {
                        lemma_tile_recovered(p.x, p.y);
                    }
                    assert(put_up(before.at(place), mid.at(place), kind, place, None));
                }
                match facing_of(cell, kind) {
                    Some(facing) => {
                        let entry = new_station(kind, place, facing);
                        entities.insert_entry(entry);
                        proof {
                            assert(entities.at(place).drop_last() =~= before.at(place));
                        }
                    },
                    None => {},
                }
                proof {
                    assert forall|p: EntityCoordinates| put_up(
                        before.at(p),
                        #[trigger] entities.at(p),
                        kind,
                        p,
                        if walked(p, coord, x as int, y as int, floor + 1) {
                            station_facing(chunk.at(inside(p), p.floor as int), kind)
                        } else {
                            None
                        },
                    ) by {
                        if p != place {
                            assert(entities.at(p) == mid.at(p));
                            assert(put_up(
                                before.at(p),
                                mid.at(p),
                                kind,
                                p,
                                if walked(p, coord, x as int, y as int, floor as int) {
                                    station_facing(chunk.at(inside(p), p.floor as int), kind)
                                } else {
                                    None
                                },
                            ));
                        }
                    }
                }
                floor += 1;
            }
            proof {
                assert forall|p: EntityCoordinates| walked(p, coord, x as int, y as int, 10)
                    == walked(p, coord, x + 1, y as int, 0) by {}
            }
            x += 1;
        }
        proof {
            assert forall|p: EntityCoordinates| walked(p, coord, 128, y as int, 0) == walked(
                p,
                coord,
                0,
                y + 1,
                0,
            ) by {
                lemma_tile_recovered(p.x, p.y);
            }
        }
        y += 1;
    }
    proof {
        assert forall|p: EntityCoordinates| walked(p, coord, 0, 128, 0) == (chunk_of(
            p.x as int,
            p.y as int,
        ) == coord && floor_in_range(p.floor as int)) by {
            lemma_tile_recovered(p.x, p.y);
        }
    }
}

/// Whether the place is in one of the chunks.
pub open spec fn in_chunks(chunks: Seq<ChunkCoord>, place: EntityCoordinates) -> bool {
    chunks.contains(chunk_of(place.x as int, place.y as int))
}

/// A tile's entries after the stations of the kind were taken down in the chunks.
pub open spec fn taken_down(
    before: InteractiveEntityMap,
    kind: EntityType,
    chunks: Seq<ChunkCoord>,
    place: EntityCoordinates,
) -> Seq<InteractiveEntityEntry> {
    if in_chunks(chunks, place) {
        kind_left_out(before.at(place), kind)
    } else {
        before.at(place)
    }
}

/// Whether the queues in front of a place are dropped: a charger there was taken down.
pub open spec fn queues_dropped(
    before: InteractiveEntityMap,
    kind: EntityType,
    chunks: Seq<ChunkCoord>,
    place: EntityCoordinates,
) -> bool {
    kind == EntityType::Charger && in_chunks(chunks, place) && kind_only(
        before.at(place),
        kind,
    ).len() > 0
}

/// Whether the queues are those of before but for the dropped ones, and the idle timers of
/// those who are still in one run on.
pub open spec fn queues_follow(
    before: InteractiveEntityMap,
    after: InteractiveEntityMap,
    kind: EntityType,
    chunks: Seq<ChunkCoord>,
) -> bool {
    &&& forall|p: EntityCoordinates| #[trigger]
        after.queues.wanting_at(p) == if queues_dropped(before, kind, chunks, p) {
            Seq::<u64>::empty()
        } else {
            before.queues.wanting_at(p)
        }
    &&& forall|p: EntityCoordinates| #[trigger]
        after.queues.waiting_at(p) == if queues_dropped(before, kind, chunks, p) {
            Seq::<u64>::empty()
        } else {
            before.queues.waiting_at(p)
        }
    &&& after.queues.timers_run_on(before.queues)
}

fn copy_places(list: &Vec<EntityCoordinates>) -> (out: Vec<EntityCoordinates>)
    ensures
        out@ == list@,
{
    let mut out: Vec<EntityCoordinates> = Vec::with_capacity(list.len());
    let mut i: usize = 0;
    while i < list.len()
        invariant
            i <= list@.len(),
            out@ == list@.take(i as int),
        decreases list@.len() - i,
    {
        out.push(list[i]);
        i += 1;
        assert(out@ =~= list@.take(i as int));
    }
    assert(out@ =~= list@);
    out
}

fn take_down(entities: &mut InteractiveEntityMap, chunks: &Vec<ChunkCoord>, kind: EntityType)
    requires
        old(entities).wf(),
    ensures
        final(entities).wf(),
        forall|p: EntityCoordinates| #[trigger]
            final(entities).at(p) == taken_down(*old(entities), kind, chunks@, p),
        queues_follow(*old(entities), *final(entities), kind, chunks@),
{
    let ghost before = *entities;
    let places = copy_places(entities.tiles.keys());
    proof {
        before.entries_stand_on_their_tiles();
        before.queues.timers_stay();
        assert forall|p: EntityCoordinates| before.at(p).len() == 0 implies kind_left_out(
            before.at(p),
            kind,
        ) == #[trigger] before.at(p) && kind_only(before.at(p), kind).len() == 0 by {
            assert(kind_left_out(before.at(p), kind) =~= before.at(p));
        }
    }
    let mut i: usize = 0;
    while i < places.len()
        invariant
            i <= places@.len(),
            before.wf(),
            places@ == before.tiles_in_order(),
            places@.no_duplicates(),
            entities.wf(),
            forall|p: EntityCoordinates| #[trigger]
                entities.at(p) == if places@.take(i as int).contains(p) {
                    taken_down(before, kind, chunks@, p)
                } else {
                    before.at(p)
                },
            forall|p: EntityCoordinates| #[trigger]
                entities.queues.wanting_at(p) == if places@.take(i as int).contains(p)
                    && queues_dropped(before, kind, chunks@, p) {
                    Seq::<u64>::empty()
                } else {
                    before.queues.wanting_at(p)
                },
            forall|p: EntityCoordinates| #[trigger]
                entities.queues.waiting_at(p) == if places@.take(i as int).contains(p)
                    && queues_dropped(before, kind, chunks@, p) {
                    Seq::<u64>::empty()
                } else {
                    before.queues.waiting_at(p)
                },
            entities.queues.timers_run_on(before.queues),
        decreases places@.len() - i,
    {
        let place: EntityCoordinates = places[i];
        let ghost done = places@.take(i as int);
        let ghost next = places@.take(i + 1);
        proof {
            assert(next =~= done.push(place));
            assert(!done.contains(place));
            assert forall|p: EntityCoordinates| #[trigger] next.contains(p) <==> done.contains(p)
                || p == place by {
                if done.contains(p) {
                    let k = choose|k: int| 0 <= k < done.len() && done[k] == p;
                    assert(next[k] == p);
                }
                if next.contains(p) {
                    let k = choose|k: int| 0 <= k < next.len() && next[k] == p;
                    if k < i {
                        assert(done[k] == p);
                    }
                }
                assert(next[i as int] == place);
            }
        }
        let ghost mid = *entities;
        let (chunk, _) = world_to_chunk_local(place.x, place.y);
        if lists(chunks, chunk) {
            let removed = entities.remove_of_type_at(place, kind);
            let ghost bare = *entities;
            if removed.len() > 0 && kind == EntityType::Charger {
                entities.clear_queues_at(place);
                proof {
                    entities.queues.timers_after_clearing(bare.queues, before.queues, place);
                }
            }
            assert(entities.tiles == bare.tiles);
            proof {
                assert forall|p: EntityCoordinates| #[trigger] entities.at(p) == bare.at(p) by {}
                assert forall|p: EntityCoordinates| #[trigger] entities.at(p) == if p == place {
                    taken_down(before, kind, chunks@, p)
                } else {
                    mid.at(p)
                } by {
                    assert(entities.at(p) == bare.at(p));
                }
            }
        }
        proof {
            assert(mid.at(place) == before.at(place));
            assert forall|p: EntityCoordinates| #[trigger] entities.at(p) == if p == place {
                taken_down(before, kind, chunks@, p)
            } else {
                mid.at(p)
            } by {}
        }
        i += 1;
    }
    proof {
        assert(places@.take(i as int) =~= places@);
        assert forall|p: EntityCoordinates| #[trigger] entities.at(p) == taken_down(
            before,
            kind,
            chunks@,
            p,
        ) by {
            if !places@.contains(p) {
                assert(before.at(p).len() == 0);
            }
        }
        assert forall|p: EntityCoordinates| !places@.contains(p) implies !#[trigger] queues_dropped(
            before,
            kind,
            chunks@,
            p,
        ) by {
            assert(before.at(p).len() == 0);
        }
    }
}

/// How the entities look after the stations of one kind were rebuilt in the chunks: old ones
/// are gone, every cell that is one has a new one, and all else is as before.
pub open spec fn rebuilt(
    before: InteractiveEntityMap,
    after: InteractiveEntityMap,
    map: Hypermap<CellType>,
    kind: EntityType,
    chunks: Seq<ChunkCoord>,
) -> bool {
    &&& forall|p: EntityCoordinates|
        put_up(
            taken_down(before, kind, chunks, p),
            #[trigger] after.at(p),
            kind,
            p,
            if in_chunks(chunks, p) {
                asked_for(map, kind, p)
            } else {
                None
            },
        )
    &&& queues_follow(before, after, kind, chunks)
}

fn sync_stations(
    map: &Hypermap<CellType>,
    entities: &mut InteractiveEntityMap,
    chunks: &Vec<ChunkCoord>,
    kind: EntityType,
)
    requires
        map.wf(),
        old(entities).wf(),
        forall|i: int| 0 <= i < chunks@.len() ==> in_world(#[trigger] chunks@[i]),
    ensures
        final(entities).wf(),
        rebuilt(*old(entities), *final(entities), *map, kind, chunks@),
{
    let ghost before = *entities;
    take_down(entities, chunks, kind);
    let ghost bare = *entities;
    let mut done: Vec<ChunkCoord> = Vec::new();
    let mut i: usize = 0;
    while i < chunks.len()
        invariant
            i <= chunks@.len(),
            map.wf(),
            entities.wf(),
            entities.queues == bare.queues,
            forall|j: int| 0 <= j < chunks@.len() ==> in_world(#[trigger] chunks@[j]),
            forall|c: ChunkCoord| #[trigger]
                done@.contains(c) <==> chunks@.take(i as int).contains(c),
            forall|p: EntityCoordinates|
                put_up(
                    bare.at(p),
                    #[trigger] entities.at(p),
                    kind,
                    p,
                    if in_chunks(done@, p) {
                        asked_for(*map, kind, p)
                    } else {
                        None
                    },
                ),
        decreases chunks@.len() - i,
    {
        let coord: ChunkCoord = chunks[i];
        let ghost mid = *entities;
        let ghost past = done@;
        proof {
            lemma_take_contains(chunks@, i as int);
        }
        if !lists(&done, coord) {
            match map.get_chunk(coord) {
                Some(chunk) => put_up_chunk(chunk, coord, entities, kind),
                None => {},
            }
            done.push(coord);
            proof {
                assert(done@[past.len() as int] == coord);
                assert forall|c: ChunkCoord| #[trigger] done@.contains(c) <==> past.contains(c) || c
                    == coord by {
                    if past.contains(c) {
                        let k = choose|k: int| 0 <= k < past.len() && past[k] == c;
                        assert(done@[k] == c);
                    }
                }
                assert forall|p: EntityCoordinates| put_up(
                    bare.at(p),
                    #[trigger] entities.at(p),
                    kind,
                    p,
                    if in_chunks(done@, p) {
                        asked_for(*map, kind, p)
                    } else {
                        None
                    },
                ) by {
                    assert(put_up(
                        bare.at(p),
                        mid.at(p),
                        kind,
                        p,
                        if in_chunks(past, p) {
                            asked_for(*map, kind, p)
                        } else {
                            None
                        },
                    ));
                    let chunk = chunk_of(p.x as int, p.y as int);
                    if chunk == coord {
                        assert(mid.at(p) == bare.at(p));
                    } else {
                        assert(entities.at(p) == mid.at(p));
                    }
                }
            }
        }
        i += 1;
    }
    proof {
        assert(chunks@.take(i as int) =~= chunks@);
        assert forall|p: EntityCoordinates| put_up(
            taken_down(before, kind, chunks@, p),
            #[trigger] entities.at(p),
            kind,
            p,
            if in_chunks(chunks@, p) {
                asked_for(*map, kind, p)
            } else {
                None
            },
        ) by {
            let chunk = chunk_of(p.x as int, p.y as int);
            assert(done@.contains(chunk) <==> chunks@.contains(chunk));
            assert(bare.at(p) == taken_down(before, kind, chunks@, p));
        }
    }
}

proof fn lemma_take_contains(chunks: Seq<ChunkCoord>, i: int)
    requires
        0 <= i < chunks.len(),
    ensures
        forall|c: ChunkCoord| #[trigger]
            chunks.take(i + 1).contains(c) <==> chunks.take(i).contains(c) || c == chunks[i],
{
    let done = chunks.take(i);
    let next = chunks.take(i + 1);
    assert(next =~= done.push(chunks[i]));
    assert forall|c: ChunkCoord| #[trigger] next.contains(c) <==> done.contains(c) || c
        == chunks[i] by {
        if done.contains(c) {
            let k = choose|k: int| 0 <= k < done.len() && done[k] == c;
            assert(next[k] == c);
        }
        if next.contains(c) {
            let k = choose|k: int| 0 <= k < next.len() && next[k] == c;
            if k < i {
                assert(done[k] == c);
            }
        }
        assert(next[i] == chunks[i]);
    }
}

/// Rebuilds charger entities for the given world chunks from authored cell data.
///
/// For each chunk in `chunks`, existing chargers in that chunk are removed with their queues,
/// then put up again from `map` by scanning every local cell on every floor.
pub fn sync_chargers_for_chunks(
    map: &Hypermap<CellType>,
    entities: &mut InteractiveEntityMap,
    chunks: &Vec<ChunkCoord>,
)
    requires
        map.wf(),
        old(entities).wf(),
        forall|i: int| 0 <= i < chunks@.len() ==> in_world(#[trigger] chunks@[i]),
    ensures
        final(entities).wf(),
        rebuilt(*old(entities), *final(entities), *map, EntityType::Charger, chunks@),
{
    sync_stations(map, entities, chunks, EntityType::Charger);
}

/// Rebuilds parts-depot entities for the given world chunks from authored cell data. No
/// queues are managed.
pub fn sync_parts_depots_for_chunks(
    map: &Hypermap<CellType>,
    entities: &mut InteractiveEntityMap,
    chunks: &Vec<ChunkCoord>,
)
    requires
        map.wf(),
        old(entities).wf(),
        forall|i: int| 0 <= i < chunks@.len() ==> in_world(#[trigger] chunks@[i]),
    ensures
        final(entities).wf(),
        rebuilt(*old(entities), *final(entities), *map, EntityType::PartsDepot, chunks@),
{
    sync_stations(map, entities, chunks, EntityType::PartsDepot);
}

} // verus!
