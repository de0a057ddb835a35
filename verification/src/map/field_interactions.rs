//! Actors and the fields of the ground: which tile an actor stands on, and what dirt it
//! leaves there or takes along.
//!
//! Positions are counted in thousandths of a tile, dirt in millionths of fully dirty.
use vstd::prelude::*;

use crate::flood::{lemma_push_new, TileSet};
use crate::map::hypermap::Hypermap;
use crate::map::world_map::CellType;

verus! {

/// Dirt added to a tile when an actor leaves it: one percent.
pub const DIRT_TRACK_DEPOSIT: u32 = 10_000;

/// Fully dirty.
pub const DIRT_CLAMP_MAX: u32 = 1_000_000;

/// The tile coordinate that a position lies in; positions beyond all tiles are in the last.
pub open spec fn tile_of(milli: int) -> int {
    let t = milli / 1000;
    if t < i32::MIN {
        i32::MIN as int
    } else if t > i32::MAX {
        i32::MAX as int
    } else {
        t
    }
}

fn floor_tile(milli: i64) -> (t: i32)
    ensures
        t == tile_of(milli as int),
{
    let t: i64 = if milli >= 0 {
        milli / 1000
    } else {
        -((-(milli + 1)) / 1000) - 1
    };
    if t < i32::MIN as i64 {
        i32::MIN
    } else if t > i32::MAX as i64 {
        i32::MAX
    } else {
        t as i32
    }
}

/// The tile that contains an actor's center.
pub fn actor_main_tile(center: (i64, i64)) -> (tile: (i32, i32))
    ensures
        tile.0 == tile_of(center.0 as int),
        tile.1 == tile_of(center.1 as int),
{
    (floor_tile(center.0), floor_tile(center.1))
}

/// A tile the actor **left** this frame (previous main tile differs from the current).
#[derive(Debug, Clone, Copy, PartialEq, Eq)]
pub struct MainTileTransition {
    pub left_tile: (i32, i32),
}

/// Updates `stored` from `center`. Returns [`MainTileTransition`] when the actor
/// crossed into a new main tile (requires a prior stored tile).
pub fn main_tile_transition(stored: &mut Option<(i32, i32)>, center: (i64, i64)) -> (transition:
    Option<MainTileTransition>)
    ensures
        *final(stored) matches Some(t) && t.0 == tile_of(center.0 as int) && t.1 == tile_of(
            center.1 as int,
        ),
        match transition {
            Some(t) => *old(stored) == Some(t.left_tile) && *old(stored) != *final(stored),
            None => *old(stored) is None || *old(stored) == *final(stored),
        },
{
    let current: (i32, i32) = actor_main_tile(center);
    let transition = match *stored {
        Some(prev) => if prev.0 != current.0 || prev.1 != current.1 {
            Some(MainTileTransition { left_tile: prev })
        } else {
            None
        },
        None => None,
    };
    *stored = Some(current);
    transition
}

/// What is known of an actor's place: the main tile noted last, and its center now.
#[derive(Debug, Clone, Copy)]
pub struct ActorPlace {
    pub stored: Option<(i32, i32)>,
    pub center: (i64, i64),
}

impl ActorPlace {
    /// The main tile now.
    pub open spec fn tile(self) -> (int, int) {
        (tile_of(self.center.0 as int), tile_of(self.center.1 as int))
    }

    /// Whether the main tile is another than the one noted last.
    pub open spec fn moved(self) -> bool {
        self.stored matches Some(t) && (t.0 as int, t.1 as int) != self.tile()
    }
}

/// The tiles that the first `n` actors left, in the order of the actors.
pub open spec fn tiles_left(actors: Seq<ActorPlace>, n: nat) -> Seq<MainTileTransition>
    decreases n,
{
    if n == 0 {
        seq![]
    } else {
        let before = tiles_left(actors, (n - 1) as nat);
        let actor = actors[n - 1];
        if actor.moved() {
            before.push(MainTileTransition { left_tile: actor.stored->0 })
        } else {
            before
        }
    }
}

/// Collects main-tile transitions for every actor after a movement step.
pub fn collect_main_tile_transitions(actors: &mut Vec<ActorPlace>) -> (transitions: Vec<
    MainTileTransition,
>)
    ensures
        transitions@ == tiles_left(old(actors)@, old(actors)@.len()),
        final(actors)@.len() == old(actors)@.len(),
        forall|i: int|
            0 <= i < final(actors)@.len() ==> {
                let now = #[trigger] final(actors)@[i];
                &&& now.center == old(actors)@[i].center
                &&& now.stored matches Some(t) && (t.0 as int, t.1 as int) == now.tile()
            },
{
    let mut transitions: Vec<MainTileTransition> = Vec::new();
    let ghost start = actors@;
    let mut i: usize = 0;
    while i < actors.len()
        invariant
            i <= actors@.len(),
            actors@.len() == start.len(),
            start == old(actors)@,
            transitions@ == tiles_left(start, i as nat),
            forall|j: int|
                0 <= j < i ==> {
                    let now = #[trigger] actors@[j];
                    &&& now.center == start[j].center
                    &&& now.stored matches Some(t) && (t.0 as int, t.1 as int) == now.tile()
                },
            forall|j: int| i <= j < actors@.len() ==> #[trigger] actors@[j] == start[j],
        decreases actors@.len() - i,
    {
        let mut place = actors[i];
        if let Some(t) = main_tile_transition(&mut place.stored, place.center) {
            transitions.push(t);
        }
        actors.set(i, place);
        i += 1;
    }
    transitions
}

/// Pure dirt-exchange rule between a `floor` value and an `actor` dirtiness.
///
/// Returns `(new_actor_dirtiness, floor_delta)`:
/// - Floor cleaner than the actor: the actor wipes [`DIRT_TRACK_DEPOSIT`] (1%) of
///   itself onto the tile (capped so it never goes below zero); `floor_delta`
///   equals what the actor lost (conserved).
/// - Floor dirtier than the actor: the actor picks up 1% *of the floor's*
///   dirtiness (up to fully dirty); `floor_delta` is zero.
/// - Equal: no change.
pub fn dirt_exchange(floor: u32, actor: u32) -> (exchange: (u32, u32))
    ensures
        exchanged(floor, actor, exchange),
{
    if floor < actor {
        let transfer: u32 = if actor < DIRT_TRACK_DEPOSIT {
            actor
        } else {
            DIRT_TRACK_DEPOSIT
        };
        (actor - transfer, transfer)
    } else if floor > actor {
        let gain: u32 = floor / 100;
        let dirtier: u64 = actor as u64 + gain as u64;
        if dirtier > DIRT_CLAMP_MAX as u64 {
            (DIRT_CLAMP_MAX, 0)
        } else {
            (dirtier as u32, 0)
        }
    } else {
        (actor, 0)
    }
}

/// Dirtiness of the actor after an exchange, and what the floor gains.
pub open spec fn exchanged(floor: u32, actor: u32, after: (u32, u32)) -> bool {
    if floor < actor {
        after.1 == (if actor < 10_000 {
            actor
        } else {
            10_000
        }) && after.0 + after.1 == actor
    } else if floor > actor {
        after.1 == 0 && after.0 == if actor + floor / 100 > 1_000_000 {
            1_000_000
        } else {
            actor + floor / 100
        }
    } else {
        after == (actor, 0u32)
    }
}

/// An actor that is at most fully dirty stays so, the tile gains no more than one percent,
/// and dirt that the floor gains is dirt that the actor lost.
pub proof fn exchange_keeps_bounds(floor: u32, actor: u32, after: (u32, u32))
    requires
        actor <= 1_000_000,
        exchanged(floor, actor, after),
    ensures
        after.0 <= 1_000_000,
        after.1 <= 10_000,
        after.1 > 0 ==> after.0 + after.1 == actor,
{
}

/// [`dirt_exchange`] between an actor and the floor tile it just **left**: nothing is
/// exchanged with void.
pub fn exchange_dirt_with_tile(cell: CellType, floor: u32, actor: u32) -> (exchange: (u32, u32))
    ensures
        cell is Void ==> exchange == (actor, 0u32),
        cell !is Void ==> exchanged(floor, actor, exchange),
{
    if matches!(cell, CellType::Void) {
        (actor, 0)
    } else {
        dirt_exchange(floor, actor)
    }
}

/// Whether `tile` is the main tile of one of the first `n` centers.
pub open spec fn occupied(centers: Seq<(i64, i64)>, tile: (i32, i32), n: int) -> bool {
    exists|i: int|
        0 <= i < n && tile_of((#[trigger] centers[i]).0 as int) == tile.0 && tile_of(
            centers[i].1 as int,
        ) == tile.1
}

/// Unique main tiles currently occupied by the given actor centers (one tile per bot).
pub fn collect_bot_occupied_tiles(centers: &Vec<(i64, i64)>) -> (tiles: Vec<(i32, i32)>)
    ensures
        tiles@.no_duplicates(),
        forall|t: (i32, i32)| #[trigger]
            tiles@.contains(t) <==> occupied(centers@, t, centers@.len() as int),
{
    let mut tiles: Vec<(i32, i32)> = Vec::new();
    let mut seen = TileSet::new();
    assert(seen@ =~= tiles@.to_set());
    let mut i: usize = 0;
    while i < centers.len()
        invariant
            i <= centers@.len(),
            tiles@.no_duplicates(),
            seen@ == tiles@.to_set(),
            forall|t: (i32, i32)| #[trigger]
                tiles@.contains(t) <==> occupied(centers@, t, i as int),
        decreases centers@.len() - i,
    {
        let tile: (i32, i32) = actor_main_tile(centers[i]);
        let ghost before = tiles@;
        let known: bool = seen.contains(tile);
        if !known {
            proof {
                lemma_push_new(tiles@, tile);
            }
            seen.insert(tile);
            tiles.push(tile);
            assert(seen@ =~= tiles@.to_set());
        }
        proof {
            assert forall|t: (i32, i32)| #[trigger]
                tiles@.contains(t) <==> occupied(centers@, t, i + 1) by {
                assert(tiles@.contains(t) <==> before.contains(t) || t == tile);
                if before.contains(t) {
                    let j = choose|j: int|
                        0 <= j < i && tile_of((#[trigger] centers@[j]).0 as int) == t.0 && tile_of(
                            centers@[j].1 as int,
                        ) == t.1;
                    assert(centers@[j] == centers@[j]);
                }
                if t == tile {
                    assert(tile_of(centers@[i as int].0 as int) == t.0);
                }
                if occupied(centers@, t, i + 1) {
                    let j = choose|j: int|
                        0 <= j < i + 1 && tile_of((#[trigger] centers@[j]).0 as int) == t.0
                            && tile_of(centers@[j].1 as int) == t.1;
                    if j < i {
                        assert(occupied(centers@, t, i as int));
                    }
                }
            }
        }
        i += 1;
    }
    tiles
}

/// Those of the first `n` tiles that are not void.
pub open spec fn heated(world: Hypermap<CellType>, tiles: Seq<(i32, i32)>, n: nat) -> Seq<(i32, i32)>
    decreases n,
{
    if n == 0 {
        seq![]
    } else {
        let before = heated(world, tiles, (n - 1) as nat);
        let t = tiles[n - 1];
        if world.tile(t.0 as int, t.1 as int, 0) is Void {
            before
        } else {
            before.push(t)
        }
    }
}

/// The tiles that bots standing on `tiles` heat: void is not heated.
pub fn apply_bot_occupancy_heat_to_tiles(
    world: &Hypermap<CellType>,
    tiles: &Vec<(i32, i32)>,
) -> (warmed: Vec<(i32, i32)>)
    requires
        world.wf(),
    ensures
        warmed@ == heated(*world, tiles@, tiles@.len()),
{
    let mut warmed: Vec<(i32, i32)> = Vec::new();
    let mut i: usize = 0;
    while i < tiles.len()
        invariant
            i <= tiles@.len(),
            world.wf(),
            warmed@ == heated(*world, tiles@, i as nat),
        decreases tiles@.len() - i,
    {
        let tile: (i32, i32) = tiles[i];
        if !matches!(world.get(tile.0, tile.1), CellType::Void) {
            warmed.push(tile);
        }
        i += 1;
    }
    warmed
}

} // verus!
