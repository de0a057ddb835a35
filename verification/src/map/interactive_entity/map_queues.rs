//! The queues in front of the stations of an entity map.
use vstd::prelude::*;

use crate::map::interactive_entity::coordinates::EntityCoordinates;
use crate::map::interactive_entity::entity_map::InteractiveEntityMap;
use crate::map::interactive_entity::station_queues::aged;
use crate::table::without_key;

verus! {

/// A map keeps its tiles sound while only its queues change.
proof fn lemma_tiles_kept(before: InteractiveEntityMap, after: InteractiveEntityMap)
    requires
        before.wf(),
        after.tiles == before.tiles,
        after.queues.wf(),
    ensures
        after.wf(),
{
    assert forall|c: EntityCoordinates, i: int| 0 <= i < after.at(c).len() implies (
    #[trigger] after.at(c)[i]).coordinates == c by {
        assert(before.at(c)[i].coordinates == c);
    }
}

impl InteractiveEntityMap {
    /// Adds `actor` to the wanting queue for `coords` (no duplicates).
    pub fn add_wanting(&mut self, coords: EntityCoordinates, actor: u64)
        requires
            old(self).wf(),
        ensures
            final(self).tiles == old(self).tiles,
            final(self).wf(),
            forall|c: EntityCoordinates| #[trigger]
                final(self).queues.wanting_at(c) == if c == coords && !old(self).queues.wanting_at(c).contains(
                    actor,
                ) {
                    old(self).queues.wanting_at(c).push(actor)
                } else {
                    old(self).queues.wanting_at(c)
                },
            forall|c: EntityCoordinates| #[trigger]
                final(self).queues.waiting_at(c) == old(self).queues.waiting_at(c),
            forall|a: u64| #[trigger]
                final(self).queues.idle(a) == if a == actor && !old(self).queues.wanting_at(coords).contains(
                    actor,
                ) {
                    Some(0u64)
                } else {
                    old(self).queues.idle(a)
                },
    {
        let ghost before = *self;
        self.queues.add_wanting(coords, actor);
        proof {
            lemma_tiles_kept(before, *self);
        }
    }

    /// Removes `actor` from the wanting queue for `coords`.
    pub fn remove_wanting(&mut self, coords: EntityCoordinates, actor: u64)
        requires
            old(self).wf(),
        ensures
            final(self).tiles == old(self).tiles,
            final(self).wf(),
            forall|c: EntityCoordinates| #[trigger]
                final(self).queues.wanting_at(c) == if c == coords {
                    without_key(old(self).queues.wanting_at(c), actor)
                } else {
                    old(self).queues.wanting_at(c)
                },
            forall|c: EntityCoordinates| #[trigger]
                final(self).queues.waiting_at(c) == old(self).queues.waiting_at(c),
            final(self).queues.timers_run_on(old(self).queues),
    {
        let ghost before = *self;
        self.queues.remove_wanting(coords, actor);
        proof {
            lemma_tiles_kept(before, *self);
        }
    }

    /// Adds `actor` to the waiting queue for `coords` (no duplicates), and
    /// removes it from wanting on the same tile.
    pub fn add_waiting(&mut self, coords: EntityCoordinates, actor: u64)
        requires
            old(self).wf(),
        ensures
            final(self).tiles == old(self).tiles,
            final(self).wf(),
            forall|c: EntityCoordinates| #[trigger]
                final(self).queues.waiting_at(c) == if c == coords && !old(self).queues.waiting_at(c).contains(
                    actor,
                ) {
                    old(self).queues.waiting_at(c).push(actor)
                } else {
                    old(self).queues.waiting_at(c)
                },
            forall|c: EntityCoordinates| #[trigger]
                final(self).queues.wanting_at(c) == if c == coords {
                    without_key(old(self).queues.wanting_at(c), actor)
                } else {
                    old(self).queues.wanting_at(c)
                },
            forall|a: u64| #[trigger]
                final(self).queues.idle(a) == if a == actor && !old(self).queues.waiting_at(coords).contains(
                    actor,
                ) {
                    Some(0u64)
                } else {
                    old(self).queues.idle(a)
                },
    {
        let ghost before = *self;
        self.queues.add_waiting(coords, actor);
        proof {
            lemma_tiles_kept(before, *self);
        }
    }

    /// Removes `actor` from the waiting queue for `coords`.
    pub fn remove_waiting(&mut self, coords: EntityCoordinates, actor: u64)
        requires
            old(self).wf(),
        ensures
            final(self).tiles == old(self).tiles,
            final(self).wf(),
            forall|c: EntityCoordinates| #[trigger]
                final(self).queues.waiting_at(c) == if c == coords {
                    without_key(old(self).queues.waiting_at(c), actor)
                } else {
                    old(self).queues.waiting_at(c)
                },
            forall|c: EntityCoordinates| #[trigger]
                final(self).queues.wanting_at(c) == old(self).queues.wanting_at(c),
            final(self).queues.timers_run_on(old(self).queues),
    {
        let ghost before = *self;
        self.queues.remove_waiting(coords, actor);
        proof {
            lemma_tiles_kept(before, *self);
        }
    }

    /// Removes `actor` from both queues for `coords`.
    pub fn remove_actor_from_queues(&mut self, coords: EntityCoordinates, actor: u64)
        requires
            old(self).wf(),
        ensures
            final(self).tiles == old(self).tiles,
            final(self).wf(),
            forall|c: EntityCoordinates| #[trigger]
                final(self).queues.wanting_at(c) == if c == coords {
                    without_key(old(self).queues.wanting_at(c), actor)
                } else {
                    old(self).queues.wanting_at(c)
                },
            forall|c: EntityCoordinates| #[trigger]
                final(self).queues.waiting_at(c) == if c == coords {
                    without_key(old(self).queues.waiting_at(c), actor)
                } else {
                    old(self).queues.waiting_at(c)
                },
            final(self).queues.timers_run_on(old(self).queues),
    {
        let ghost before = *self;
        self.queues.remove_actor_from_queues(coords, actor);
        proof {
            lemma_tiles_kept(before, *self);
        }
    }

    /// Drops all queue state for `coords` (used when a station is rebuilt/removed).
    pub fn clear_queues_at(&mut self, coords: EntityCoordinates)
        requires
            old(self).wf(),
        ensures
            final(self).tiles == old(self).tiles,
            final(self).wf(),
            forall|c: EntityCoordinates| #[trigger]
                final(self).queues.wanting_at(c) == if c == coords {
                    Seq::<u64>::empty()
                } else {
                    old(self).queues.wanting_at(c)
                },
            forall|c: EntityCoordinates| #[trigger]
                final(self).queues.waiting_at(c) == if c == coords {
                    Seq::<u64>::empty()
                } else {
                    old(self).queues.waiting_at(c)
                },
            final(self).queues.timers_run_on(old(self).queues),
    {
        let ghost before = *self;
        self.queues.clear_queues_at(coords);
        proof {
            lemma_tiles_kept(before, *self);
        }
    }

    /// Re-asserts that `actor` is still actively pursuing its queued station this
    /// tick, resetting its liveness idle timer. No-op for an actor that holds no
    /// membership.
    pub fn refresh_queue(&mut self, actor: u64)
        requires
            old(self).wf(),
        ensures
            final(self).tiles == old(self).tiles,
            final(self).wf(),
            final(self).queues.same_queues(old(self).queues),
            final(self).queues.watched() == old(self).queues.watched(),
            forall|a: u64| #[trigger]
                final(self).queues.idle(a) == if a == actor && old(self).queues.queued(actor) {
                    Some(0u64)
                } else {
                    old(self).queues.idle(a)
                },
    {
        let ghost before = *self;
        self.queues.refresh_queue(actor);
        proof {
            lemma_tiles_kept(before, *self);
        }
    }

    /// Ages every queued actor's idle timer by `dt_ms` and appends to `out` the
    /// actors that have not re-asserted their membership within `ttl_ms`.
    pub fn collect_stale_queued(&mut self, dt_ms: u64, ttl_ms: u64, out: &mut Vec<u64>)
        requires
            old(self).wf(),
        ensures
            final(self).tiles == old(self).tiles,
            final(self).wf(),
            final(self).queues.same_queues(old(self).queues),
            final(self).queues.watched() == old(self).queues.watched(),
            forall|a: u64| #[trigger]
                final(self).queues.idle(a) == match old(self).queues.idle(a) {
                    Some(idle_ms) => Some(aged(idle_ms, dt_ms)),
                    None => None,
                },
            final(out)@ == old(out)@ + old(self).queues.gone_silent(
                dt_ms,
                ttl_ms,
                old(self).queues.watched().len(),
            ),
    {
        let ghost before = *self;
        self.queues.collect_stale_queued(dt_ms, ttl_ms, out);
        proof {
            lemma_tiles_kept(before, *self);
        }
    }

    /// Number of actors currently waiting near station `coords`.
    pub fn waiting_len(&self, coords: EntityCoordinates) -> (n: usize)
        ensures
            n == self.queues.waiting_at(coords).len(),
    {
        self.queues.waiting_len(coords)
    }

    /// `true` when `actor` is first in waiting queue for `coords`.
    pub fn is_waiting_front(&self, coords: EntityCoordinates, actor: u64) -> (front: bool)
        ensures
            front == (self.queues.waiting_at(coords).len() > 0 && self.queues.waiting_at(coords)[0] == actor),
    {
        self.queues.is_waiting_front(coords, actor)
    }

    /// `true` if `actor` is in any wanting or waiting queue: one lookup.
    pub fn is_in_any_queue(&self, actor: u64) -> (queued: bool)
        requires
            self.wf(),
        ensures
            queued == self.queues.queued(actor),
    {
        self.queues.is_in_any_queue(actor)
    }

    /// Snapshot the wanting queue in order.
    pub fn wanting_queue(&self, coords: EntityCoordinates) -> (actors: Vec<u64>)
        ensures
            actors@ == self.queues.wanting_at(coords),
    {
        self.queues.wanting_queue(coords)
    }

    /// Snapshot the waiting queue in order.
    pub fn waiting_queue(&self, coords: EntityCoordinates) -> (actors: Vec<u64>)
        ensures
            actors@ == self.queues.waiting_at(coords),
    {
        self.queues.waiting_queue(coords)
    }
}

} // verus!
