//! Who wants a station, who waits for it, and who has gone silent.
use vstd::prelude::*;

use crate::map::interactive_entity::coordinates::EntityCoordinates;
use crate::table::{lemma_without_key, without_key, Table};

verus! {

/// Runtime queue state for one interactive-entity tile. `wanting` tracks actors
/// that selected this station as a target; `waiting` tracks actors that entered
/// the near-station queue and are waiting for dock turn.
#[derive(Debug)]
pub struct ActorQueueState {
    pub wanting: Vec<u64>,
    pub waiting: Vec<u64>,
}

impl ActorQueueState {
    pub fn new() -> (state: Self)
        ensures
            state.wanting@ == Seq::<u64>::empty(),
            state.waiting@ == Seq::<u64>::empty(),
    {
        ActorQueueState { wanting: Vec::new(), waiting: Vec::new() }
    }

    /// In how many of the two queues the actor is.
    pub open spec fn places(self, actor: u64) -> nat {
        (if self.wanting@.contains(actor) {
            1nat
        } else {
            0
        }) + (if self.waiting@.contains(actor) {
            1nat
        } else {
            0
        })
    }

    /// No actor is in a queue twice, and some actor is in one.
    pub open spec fn proper(self) -> bool {
        &&& self.wanting@.no_duplicates()
        &&& self.waiting@.no_duplicates()
        &&& self.wanting@.len() + self.waiting@.len() > 0
    }
}

/// What is known of an actor that is in a queue: how many it is in, and for how long it has
/// not said that it still is.
#[derive(Debug, Clone, Copy)]
pub struct QueueMember {
    pub memberships: u128,
    pub idle_ms: u64,
}

/// The number of queues of the listed stations that the actor is in.
pub open spec fn memberships(
    stations: Seq<EntityCoordinates>,
    queues: Map<EntityCoordinates, ActorQueueState>,
    actor: u64,
) -> nat
    decreases stations.len(),
{
    if stations.len() == 0 {
        0
    } else {
        memberships(stations.drop_last(), queues, actor) + queues[stations.last()].places(actor)
    }
}

proof fn lemma_memberships_elsewhere(
    stations: Seq<EntityCoordinates>,
    queues: Map<EntityCoordinates, ActorQueueState>,
    others: Map<EntityCoordinates, ActorQueueState>,
    actor: u64,
)
    requires
        forall|i: int|
            0 <= i < stations.len() ==> queues[#[trigger] stations[i]].places(actor)
                == others[stations[i]].places(actor),
    ensures
        memberships(stations, queues, actor) == memberships(stations, others, actor),
    decreases stations.len(),
{
    if stations.len() > 0 {
        let rest = stations.drop_last();
        assert forall|i: int| 0 <= i < rest.len() implies queues[#[trigger] rest[i]].places(actor)
            == others[rest[i]].places(actor) by {
            assert(rest[i] == stations[i]);
        }
        assert(stations[stations.len() - 1] == stations.last());
        lemma_memberships_elsewhere(rest, queues, others, actor);
    }
}

proof fn lemma_memberships_update(
    stations: Seq<EntityCoordinates>,
    queues: Map<EntityCoordinates, ActorQueueState>,
    k: EntityCoordinates,
    state: ActorQueueState,
    actor: u64,
)
    requires
        stations.no_duplicates(),
        stations.contains(k),
    ensures
        memberships(stations, queues.insert(k, state), actor) + queues[k].places(actor)
            == memberships(stations, queues, actor) + state.places(actor),
    decreases stations.len(),
{
    let rest = stations.drop_last();
    let updated = queues.insert(k, state);
    let last = stations.last();
    if last == k {
        assert forall|i: int| 0 <= i < rest.len() implies queues[#[trigger] rest[i]].places(actor)
            == updated[rest[i]].places(actor) by {
            assert(rest[i] == stations[i]);
            assert(stations[i] != stations[stations.len() - 1]);
        }
        lemma_memberships_elsewhere(rest, queues, updated, actor);
    } else {
        let i = choose|i: int| 0 <= i < stations.len() && stations[i] == k;
        assert(rest[i] == k);
        lemma_memberships_update(rest, queues, k, state, actor);
    }
}

proof fn lemma_memberships_push(
    stations: Seq<EntityCoordinates>,
    queues: Map<EntityCoordinates, ActorQueueState>,
    k: EntityCoordinates,
    state: ActorQueueState,
    actor: u64,
)
    requires
        !stations.contains(k),
    ensures
        memberships(stations.push(k), queues.insert(k, state), actor) == memberships(
            stations,
            queues,
            actor,
        ) + state.places(actor),
{
    let updated = queues.insert(k, state);
    let longer = stations.push(k);
    assert(longer.drop_last() =~= stations);
    assert(longer.last() == k);
    assert forall|i: int| 0 <= i < stations.len() implies queues[#[trigger] stations[i]].places(
        actor,
    ) == updated[stations[i]].places(actor) by {
        assert(stations.contains(stations[i]));
    }
    lemma_memberships_elsewhere(stations, queues, updated, actor);
}

proof fn lemma_memberships_remove(
    stations: Seq<EntityCoordinates>,
    queues: Map<EntityCoordinates, ActorQueueState>,
    k: EntityCoordinates,
    actor: u64,
)
    requires
        stations.no_duplicates(),
        stations.contains(k),
    ensures
        memberships(without_key(stations, k), queues.remove(k), actor) + queues[k].places(actor)
            == memberships(stations, queues, actor),
    decreases stations.len(),
{
    let rest = stations.drop_last();
    let removed = queues.remove(k);
    let last = stations.last();
    if last == k {
        lemma_without_absent(rest, k);
        assert forall|i: int| 0 <= i < rest.len() implies queues[#[trigger] rest[i]].places(actor)
            == removed[rest[i]].places(actor) by {
            assert(rest[i] == stations[i]);
            assert(stations[i] != stations[stations.len() - 1]);
        }
        lemma_memberships_elsewhere(rest, queues, removed, actor);
    } else {
        let i = choose|i: int| 0 <= i < stations.len() && stations[i] == k;
        assert(rest[i] == k);
        lemma_memberships_remove(rest, queues, k, actor);
        let kept = without_key(rest, k);
        assert(kept.push(last).drop_last() =~= kept);
    }
}

proof fn lemma_without_absent(list: Seq<EntityCoordinates>, k: EntityCoordinates)
    requires
        forall|i: int| 0 <= i < list.len() ==> list[i] != k,
    ensures
        without_key(list, k) == list,
    decreases list.len(),
{
    if list.len() > 0 {
        lemma_without_absent(list.drop_last(), k);
        assert(list.drop_last().push(list.last()) =~= list);
    }
}

proof fn lemma_memberships_positive(
    stations: Seq<EntityCoordinates>,
    queues: Map<EntityCoordinates, ActorQueueState>,
    actor: u64,
)
    ensures
        memberships(stations, queues, actor) > 0 <==> exists|i: int|
            0 <= i < stations.len() && (#[trigger] queues[stations[i]]).places(actor) > 0,
        memberships(stations, queues, actor) <= 2 * stations.len(),
    decreases stations.len(),
{
    if stations.len() > 0 {
        let rest = stations.drop_last();
        lemma_memberships_positive(rest, queues, actor);
        if memberships(rest, queues, actor) > 0 {
            let i = choose|i: int|
                0 <= i < rest.len() && (#[trigger] queues[rest[i]]).places(actor) > 0;
            assert(queues[stations[i]].places(actor) > 0);
        }
        if queues[stations.last()].places(actor) > 0 {
            assert(queues[stations[stations.len() - 1]].places(actor) > 0);
        }
        if exists|i: int|
            0 <= i < stations.len() && (#[trigger] queues[stations[i]]).places(actor) > 0 {
            let i = choose|i: int|
                0 <= i < stations.len() && (#[trigger] queues[stations[i]]).places(actor) > 0;
            if i < rest.len() {
                assert(queues[rest[i]].places(actor) > 0);
            }
        }
    }
}

fn has_actor(list: &Vec<u64>, actor: u64) -> (found: bool)
    ensures
        found == list@.contains(actor),
{
    let mut i: usize = 0;
    while i < list.len()
        invariant
            i <= list@.len(),
            forall|j: int| 0 <= j < i ==> list@[j] != actor,
        decreases list@.len() - i,
    {
        if list[i] == actor {
            assert(list@[i as int] == actor);
            return true;
        }
        i += 1;
    }
    false
}

fn copy_actors(list: &Vec<u64>) -> (out: Vec<u64>)
    ensures
        out@ == list@,
{
    let mut out: Vec<u64> = Vec::with_capacity(list.len());
    let mut i: usize = 0;
    while i < list.len()
        invariant
            i <= list@.len(),
            out@ == list@.take(i as int),
        decreases list@.len() - i,
    {
        out.push(list[i]);
        i += 1;
        assert(out@ =~= list@.take(i as int));
    }
    assert(out@ =~= list@);
    out
}

fn drop_actor(list: &Vec<u64>, actor: u64) -> (kept: Vec<u64>)
    ensures
        kept@ == without_key(list@, actor),
{
    let mut kept: Vec<u64> = Vec::with_capacity(list.len());
    let mut i: usize = 0;
    while i < list.len()
        invariant
            i <= list@.len(),
            kept@ == without_key(list@.take(i as int), actor),
        decreases list@.len() - i,
    {
        assert(list@.take(i + 1).drop_last() =~= list@.take(i as int));
        if list[i] != actor {
            kept.push(list[i]);
        }
        i += 1;
    }
    assert(list@.take(i as int) =~= list@);
    kept
}

/// The queues of all stations. Every actor that is in a queue is indexed with the number of
/// queues it is in, so that asking for it costs one lookup.
#[derive(Debug)]
pub struct StationQueues {
    queues: Table<EntityCoordinates, ActorQueueState>,
    index: Table<u64, QueueMember>,
}

impl StationQueues {
    spec fn count(self, actor: u64) -> nat {
        memberships(self.queues.keys_in_order(), self.queues@, actor)
    }

    /// The actors that want a station, first come first.
    pub closed spec fn wanting_at(self, coords: EntityCoordinates) -> Seq<u64> {
        if self.queues@.contains_key(coords) {
            self.queues@[coords].wanting@
        } else {
            seq![]
        }
    }

    /// The actors that wait at a station, first come first.
    pub closed spec fn waiting_at(self, coords: EntityCoordinates) -> Seq<u64> {
        if self.queues@.contains_key(coords) {
            self.queues@[coords].waiting@
        } else {
            seq![]
        }
    }

    /// For how long an actor has been silent; none that is in no queue is watched.
    pub closed spec fn idle(self, actor: u64) -> Option<u64> {
        if self.index@.contains_key(actor) {
            Some(self.index@[actor].idle_ms)
        } else {
            None
        }
    }

    /// The watched actors in the order in which they joined their first queue.
    pub closed spec fn watched(self) -> Seq<u64> {
        self.index.keys_in_order()
    }

    /// Whether the actor is in some queue.
    pub open spec fn queued(self, actor: u64) -> bool {
        exists|c: EntityCoordinates|
            #![trigger self.wanting_at(c)]
            self.wanting_at(c).contains(actor) || self.waiting_at(c).contains(actor)
    }

    /// No queue holds an actor twice, no station with two empty queues is kept, and the
    /// index counts every actor's queues.
    pub closed spec fn wf(self) -> bool {
        &&& self.queues.wf()
        &&& self.index.wf()
        &&& forall|c: EntityCoordinates| #[trigger]
            self.queues@.contains_key(c) ==> self.queues@[c].proper()
        &&& forall|a: u64| #[trigger] self.index@.contains_key(a) <==> self.count(a) > 0
        &&& forall|a: u64| #[trigger]
            self.index@.contains_key(a) ==> self.index@[a].memberships == self.count(a)
    }

    /// The watched actors are those in a queue, and no queue holds an actor twice.
    pub proof fn index_names_the_queued(self, actor: u64)
        requires
            self.wf(),
        ensures
            self.idle(actor) is Some <==> self.queued(actor),
            self.watched().contains(actor) <==> self.queued(actor),
            self.watched().no_duplicates(),
            forall|c: EntityCoordinates| #[trigger] self.wanting_at(c).no_duplicates(),
            forall|c: EntityCoordinates| #[trigger] self.waiting_at(c).no_duplicates(),
    {
        let stations = self.queues.keys_in_order();
        self.queues.keys_are_the_domain();
        self.index.keys_are_the_domain();
        lemma_memberships_positive(stations, self.queues@, actor);
        assert(self.index@.contains_key(actor) <==> self.count(actor) > 0);
        if self.count(actor) > 0 {
            let i = choose|i: int|
                0 <= i < stations.len() && (#[trigger] self.queues@[stations[i]]).places(actor) > 0;
            let c = stations[i];
            assert(stations.contains(c));
            assert(self.queues@.contains_key(c));
            assert(self.wanting_at(c).contains(actor) || self.waiting_at(c).contains(actor));
        }
        if self.queued(actor) {
            let c = choose|c: EntityCoordinates|
                #![trigger self.wanting_at(c)]
                self.wanting_at(c).contains(actor) || self.waiting_at(c).contains(actor);
            assert(self.queues@.contains_key(c));
            assert(stations.contains(c));
            let i = choose|i: int| 0 <= i < stations.len() && stations[i] == c;
            assert(self.queues@[stations[i]].places(actor) > 0);
        }
        assert forall|c: EntityCoordinates| #[trigger] self.wanting_at(c).no_duplicates() by {
            if self.queues@.contains_key(c) {
                assert(self.queues@[c].proper());
            }
        }
        assert forall|c: EntityCoordinates| #[trigger] self.waiting_at(c).no_duplicates() by {
            if self.queues@.contains_key(c) {
                assert(self.queues@[c].proper());
            }
        }
    }

    pub fn new() -> (queues: Self)
        ensures
            queues.wf(),
            forall|c: EntityCoordinates| #[trigger] queues.wanting_at(c) == Seq::<u64>::empty(),
            forall|c: EntityCoordinates| #[trigger] queues.waiting_at(c) == Seq::<u64>::empty(),
            forall|a: u64| #[trigger] queues.idle(a) is None,
            queues.watched() == Seq::<u64>::empty(),
    {
        StationQueues { queues: Table::new(), index: Table::new() }
    }

    /// Snapshot the wanting queue in order.
    pub fn wanting_queue(&self, coords: EntityCoordinates) -> (actors: Vec<u64>)
        ensures
            actors@ == self.wanting_at(coords),
    {
        match self.queues.get(coords) {
            Some(state) => copy_actors(&state.wanting),
            None => Vec::new(),
        }
    }

    /// Snapshot the waiting queue in order.
    pub fn waiting_queue(&self, coords: EntityCoordinates) -> (actors: Vec<u64>)
        ensures
            actors@ == self.waiting_at(coords),
    {
        match self.queues.get(coords) {
            Some(state) => copy_actors(&state.waiting),
            None => Vec::new(),
        }
    }

    /// Number of actors currently waiting near station `coords`.
    pub fn waiting_len(&self, coords: EntityCoordinates) -> (n: usize)
        ensures
            n == self.waiting_at(coords).len(),
    {
        match self.queues.get(coords) {
            Some(state) => state.waiting.len(),
            None => 0,
        }
    }

    /// `true` when `actor` is first in waiting queue for `coords`.
    pub fn is_waiting_front(&self, coords: EntityCoordinates, actor: u64) -> (front: bool)
        ensures
            front == (self.waiting_at(coords).len() > 0 && self.waiting_at(coords)[0] == actor),
    {
        match self.queues.get(coords) {
            Some(state) => state.waiting.len() > 0 && state.waiting[0] == actor,
            None => false,
        }
    }

    /// `true` if `actor` is in any wanting or waiting queue: one lookup.
    pub fn is_in_any_queue(&self, actor: u64) -> (queued: bool)
        requires
            self.wf(),
        ensures
            queued == self.queued(actor),
    {
        proof {
            self.index_names_the_queued(actor);
        }
        self.index.contains(actor)
    }

    /// Re-asserts that `actor` is still actively pursuing its queued station this
    /// tick, resetting its liveness idle timer. No-op for an actor that holds no
    /// membership.
    pub fn refresh_queue(&mut self, actor: u64)
        requires
            old(self).wf(),
        ensures
            final(self).wf(),
            final(self).same_queues(*old(self)),
            final(self).watched() == old(self).watched(),
            forall|a: u64| #[trigger]
                final(self).idle(a) == if a == actor && old(self).queued(actor) {
                    Some(0u64)
                } else {
                    old(self).idle(a)
                },
    {
        proof {
            self.index_names_the_queued(actor);
        }
        if self.index.contains(actor) {
            let blank = QueueMember { memberships: 0, idle_ms: 0 };
            let member = self.index.slot(actor, blank);
            member.idle_ms = 0;
        }
    }

    /// Whether all stations have the same queues as before.
    pub open spec fn same_queues(self, before: Self) -> bool {
        &&& forall|c: EntityCoordinates| #[trigger] self.wanting_at(c) == before.wanting_at(c)
        &&& forall|c: EntityCoordinates| #[trigger] self.waiting_at(c) == before.waiting_at(c)
    }

    /// Sets both queues of a station, of which only one actor's places differ from before.
    /// `joined` says that the actor has just come into a queue, which restarts its timer.
    #[verifier::rlimit(40)]
    #[verifier::spinoff_prover]
    fn put_state(&mut self, coords: EntityCoordinates, state: ActorQueueState, actor: u64, joined: bool)
        requires
            old(self).wf(),
            state.wanting@.no_duplicates(),
            state.waiting@.no_duplicates(),
            forall|a: u64|
                a != actor ==> (#[trigger] state.wanting@.contains(a) <==> old(
                    self).wanting_at(coords).contains(a)),
            forall|a: u64|
                a != actor ==> (#[trigger] state.waiting@.contains(a) <==> old(
                    self).waiting_at(coords).contains(a)),
            joined ==> state.wanting@.contains(actor) || state.waiting@.contains(actor),
            state.wanting@.contains(actor) && !old(self).wanting_at(coords).contains(actor)
                ==> joined,
            state.waiting@.contains(actor) && !old(self).waiting_at(coords).contains(actor)
                ==> joined,
        ensures
            final(self).wf(),
            forall|c: EntityCoordinates| #[trigger]
                final(self).wanting_at(c) == if c == coords {
                    state.wanting@
                } else {
                    old(self).wanting_at(c)
                },
            forall|c: EntityCoordinates| #[trigger]
                final(self).waiting_at(c) == if c == coords {
                    state.waiting@
                } else {
                    old(self).waiting_at(c)
                },
            forall|a: u64| a != actor ==> #[trigger] final(self).idle(a) == old(self).idle(a),
            final(self).idle(actor) == if joined {
                Some(0u64)
            } else if final(self).queued(actor) {
                old(self).idle(actor)
            } else {
                None
            },
            final(self).watched() == if joined && old(self).idle(actor) is None {
                old(self).watched().push(actor)
            } else if final(self).queued(actor) {
                old(self).watched()
            } else {
                without_key(old(self).watched(), actor)
            },
    {
        let ghost before = *self;
        let ghost stations = self.queues.keys_in_order();
        let ghost given = state;
        let station_count: usize = self.queues.keys().len();
        let old_places: u128 = match self.queues.get(coords) {
            Some(held) => (if has_actor(&held.wanting, actor) {
                1
            } else {
                0
            }) + (if has_actor(&held.waiting, actor) {
                1
            } else {
                0
            }),
            None => 0,
        };
        let new_places: u128 = (if has_actor(&state.wanting, actor) {
            1
        } else {
            0
        }) + (if has_actor(&state.waiting, actor) {
            1
        } else {
            0
        });
        let empty: bool = state.wanting.len() == 0 && state.waiting.len() == 0;
        if empty {
            let _ = self.queues.remove(coords);
        } else {
            let slot = self.queues.slot(coords, ActorQueueState::new());
            *slot = state;
        }
        proof {
            before.queues.keys_are_the_domain();
            self.queues.keys_are_the_domain();
            assert forall|a: u64| #[trigger]
                self.count(a) == before.count(a) + given.places(a) - before.places_at(coords, a) by {
                if before.queues@.contains_key(coords) {
                    if empty {
                        lemma_memberships_remove(stations, before.queues@, coords, a);
                    } else {
                        lemma_memberships_update(stations, before.queues@, coords, given, a);
                    }
                } else if empty {
                    assert(self.queues@ =~= before.queues@);
                    lemma_without_absent(stations, coords);
                } else {
                    lemma_memberships_push(stations, before.queues@, coords, given, a);
                }
            }
            lemma_memberships_positive(stations, before.queues@, actor);
            assert forall|a: u64| a != actor implies #[trigger] self.count(a) == before.count(a) by {
                assert(given.places(a) == before.places_at(coords, a));
            }
        }
        let ghost middle = *self;
        let known: Option<QueueMember> = match self.index.get(actor) {
            Some(member) => Some(*member),
            None => None,
        };
        let (held, idle_ms): (u128, u64) = match known {
            Some(member) => (member.memberships, member.idle_ms),
            None => (0, 0),
        };
        assert(held == before.count(actor)) by {
            assert(before.index@.contains_key(actor) <==> before.count(actor) > 0);
        }
        proof {
            assert(stations.len() == station_count);
            assert(middle.count(actor) == before.count(actor) + given.places(actor)
                - before.places_at(coords, actor));
        }
        let now: u128 = held + new_places - old_places;
        self.set_member(actor, now, if joined {
            0
        } else {
            idle_ms
        });
        proof {
            assert(self.queues == middle.queues);
            assert forall|a: u64| #[trigger] self.index@.contains_key(a) <==> self.count(a) > 0 by {
                if a != actor {
                    assert(before.index@.contains_key(a) <==> before.count(a) > 0);
                    assert(middle.count(a) == before.count(a));
                    assert(self.count(a) == middle.count(a));
                } else {
                    assert(self.count(actor) == middle.count(actor));
                }
            }
            assert forall|a: u64| #[trigger]
                self.index@.contains_key(a) implies self.index@[a].memberships == self.count(a) by {
                if a != actor {
                    assert(before.index@.contains_key(a));
                    assert(middle.count(a) == before.count(a));
                    assert(self.count(a) == middle.count(a));
                } else {
                    assert(self.count(actor) == middle.count(actor));
                }
            }
            assert forall|c: EntityCoordinates| #[trigger] self.queues@.contains_key(c) implies self.queues@[c].proper() by {
                if c != coords {
                    assert(before.queues@.contains_key(c));
                }
            }
            assert(self.wf());
            self.index_names_the_queued(actor);
            before.index_names_the_queued(actor);
            assert(self.wanting_at(coords) == given.wanting@);
            assert(self.waiting_at(coords) == given.waiting@);
            if joined {
                assert(self.queued(actor));
            } else if self.queued(actor) {
                assert(now > 0);
                assert(before.count(actor) > 0);
                assert(before.index@.contains_key(actor));
            }
        }
    }

    /// Sets or, without memberships, drops the index entry of an actor.
    fn set_member(&mut self, actor: u64, memberships: u128, idle_ms: u64)
        requires
            old(self).index.wf(),
        ensures
            final(self).queues == old(self).queues,
            final(self).index.wf(),
            memberships == 0 ==> final(self).index@ == old(self).index@.remove(actor)
                && final(self).index.keys_in_order() == without_key(
                old(self).index.keys_in_order(),
                actor,
            ),
            memberships > 0 ==> final(self).index@ == old(self).index@.insert(
                actor,
                QueueMember { memberships, idle_ms },
            ) && final(self).index.keys_in_order() == if old(self).index@.contains_key(actor) {
                old(self).index.keys_in_order()
            } else {
                old(self).index.keys_in_order().push(actor)
            },
    {
        if memberships == 0 {
            let _ = self.index.remove(actor);
        } else {
            let blank = QueueMember { memberships: 0, idle_ms: 0 };
            let slot = self.index.slot(actor, blank);
            *slot = QueueMember { memberships, idle_ms };
        }
    }

    spec fn places_at(self, coords: EntityCoordinates, actor: u64) -> nat {
        if self.queues@.contains_key(coords) {
            self.queues@[coords].places(actor)
        } else {
            0
        }
    }
}

impl StationQueues {
    /// Whether every timer that still runs runs on, and the timers of those that are in no
    /// queue any more are gone.
    pub open spec fn timers_run_on(self, before: Self) -> bool {
        forall|a: u64| #[trigger]
            self.idle(a) == if self.queued(a) {
                before.idle(a)
            } else {
                None
            }
    }

    fn state_at(&self, coords: EntityCoordinates) -> (state: ActorQueueState)
        requires
            self.wf(),
        ensures
            state.wanting@ == self.wanting_at(coords),
            state.waiting@ == self.waiting_at(coords),
            state.wanting@.no_duplicates(),
            state.waiting@.no_duplicates(),
    {
        proof {
            self.index_names_the_queued(0);
        }
        ActorQueueState {
            wanting: self.wanting_queue(coords),
            waiting: self.waiting_queue(coords),
        }
    }

    proof fn timers_of_others(self, before: Self, actor: u64)
        requires
            self.wf(),
            before.wf(),
            forall|a: u64| a != actor ==> #[trigger] self.idle(a) == before.idle(a),
            self.idle(actor) == if self.queued(actor) {
                before.idle(actor)
            } else {
                None
            },
        ensures
            self.timers_run_on(before),
    {
        assert forall|a: u64| #[trigger]
            self.idle(a) == if self.queued(a) {
                before.idle(a)
            } else {
                None
            } by {
            self.index_names_the_queued(a);
        }
    }

    /// Adds `actor` to the wanting queue for `coords` (no duplicates).
    pub fn add_wanting(&mut self, coords: EntityCoordinates, actor: u64)
        requires
            old(self).wf(),
        ensures
            final(self).wf(),
            forall|c: EntityCoordinates| #[trigger]
                final(self).wanting_at(c) == if c == coords && !old(self).wanting_at(c).contains(
                    actor,
                ) {
                    old(self).wanting_at(c).push(actor)
                } else {
                    old(self).wanting_at(c)
                },
            forall|c: EntityCoordinates| #[trigger]
                final(self).waiting_at(c) == old(self).waiting_at(c),
            forall|a: u64| #[trigger]
                final(self).idle(a) == if a == actor && !old(self).wanting_at(coords).contains(
                    actor,
                ) {
                    Some(0u64)
                } else {
                    old(self).idle(a)
                },
    {
        let mut state = self.state_at(coords);
        if has_actor(&state.wanting, actor) {
            return;
        }
        let ghost listed = state.wanting@;
        state.wanting.push(actor);
        proof {
            lemma_actor_pushed(listed, actor);
        }
        self.put_state(coords, state, actor, true);
    }

    /// Adds `actor` to the waiting queue for `coords` (no duplicates), and
    /// removes it from wanting on the same tile.
    pub fn add_waiting(&mut self, coords: EntityCoordinates, actor: u64)
        requires
            old(self).wf(),
        ensures
            final(self).wf(),
            forall|c: EntityCoordinates| #[trigger]
                final(self).waiting_at(c) == if c == coords && !old(self).waiting_at(c).contains(
                    actor,
                ) {
                    old(self).waiting_at(c).push(actor)
                } else {
                    old(self).waiting_at(c)
                },
            forall|c: EntityCoordinates| #[trigger]
                final(self).wanting_at(c) == if c == coords {
                    without_key(old(self).wanting_at(c), actor)
                } else {
                    old(self).wanting_at(c)
                },
            forall|a: u64| #[trigger]
                final(self).idle(a) == if a == actor && !old(self).waiting_at(coords).contains(
                    actor,
                ) {
                    Some(0u64)
                } else {
                    old(self).idle(a)
                },
    {
        let mut state = self.state_at(coords);
        let ghost before = *self;
        let joined: bool = !has_actor(&state.waiting, actor);
        let ghost listed = state.waiting@;
        if joined {
            state.waiting.push(actor);
            proof {
                lemma_actor_pushed(listed, actor);
            }
        }
        proof {
            lemma_without_key(state.wanting@, actor);
        }
        state.wanting = drop_actor(&state.wanting, actor);
        let ghost waiting = state.waiting@;
        self.put_state(coords, state, actor, joined);
        proof {
            assert(self.waiting_at(coords) == waiting);
            assert(waiting.contains(actor));
            assert(self.waiting_at(coords).contains(actor));
            assert(self.wanting_at(coords) == without_key(before.wanting_at(coords), actor));
            assert(self.queued(actor));
        }
    }

    /// Removes `actor` from the wanting queue for `coords`.
    pub fn remove_wanting(&mut self, coords: EntityCoordinates, actor: u64)
        requires
            old(self).wf(),
        ensures
            final(self).wf(),
            forall|c: EntityCoordinates| #[trigger]
                final(self).wanting_at(c) == if c == coords {
                    without_key(old(self).wanting_at(c), actor)
                } else {
                    old(self).wanting_at(c)
                },
            forall|c: EntityCoordinates| #[trigger]
                final(self).waiting_at(c) == old(self).waiting_at(c),
            final(self).timers_run_on(*old(self)),
    {
        let ghost before = *self;
        let mut state = self.state_at(coords);
        proof {
            lemma_without_key(state.wanting@, actor);
        }
        state.wanting = drop_actor(&state.wanting, actor);
        self.put_state(coords, state, actor, false);
        proof {
            self.timers_of_others(before, actor);
        }
    }

    /// Removes `actor` from the waiting queue for `coords`.
    pub fn remove_waiting(&mut self, coords: EntityCoordinates, actor: u64)
        requires
            old(self).wf(),
        ensures
            final(self).wf(),
            forall|c: EntityCoordinates| #[trigger]
                final(self).waiting_at(c) == if c == coords {
                    without_key(old(self).waiting_at(c), actor)
                } else {
                    old(self).waiting_at(c)
                },
            forall|c: EntityCoordinates| #[trigger]
                final(self).wanting_at(c) == old(self).wanting_at(c),
            final(self).timers_run_on(*old(self)),
    {
        let ghost before = *self;
        let mut state = self.state_at(coords);
        proof {
            lemma_without_key(state.waiting@, actor);
        }
        state.waiting = drop_actor(&state.waiting, actor);
        self.put_state(coords, state, actor, false);
        proof {
            self.timers_of_others(before, actor);
        }
    }

    /// Removes `actor` from both queues for `coords`.
    pub fn remove_actor_from_queues(&mut self, coords: EntityCoordinates, actor: u64)
        requires
            old(self).wf(),
        ensures
            final(self).wf(),
            forall|c: EntityCoordinates| #[trigger]
                final(self).wanting_at(c) == if c == coords {
                    without_key(old(self).wanting_at(c), actor)
                } else {
                    old(self).wanting_at(c)
                },
            forall|c: EntityCoordinates| #[trigger]
                final(self).waiting_at(c) == if c == coords {
                    without_key(old(self).waiting_at(c), actor)
                } else {
                    old(self).waiting_at(c)
                },
            final(self).timers_run_on(*old(self)),
    {
        let ghost before = *self;
        let state = self.state_at(coords);
        proof {
            lemma_without_key(state.wanting@, actor);
            lemma_without_key(state.waiting@, actor);
        }
        let emptied = ActorQueueState {
            wanting: drop_actor(&state.wanting, actor),
            waiting: drop_actor(&state.waiting, actor),
        };
        self.put_state(coords, emptied, actor, false);
        proof {
            self.timers_of_others(before, actor);
        }
    }
}

proof fn lemma_actor_pushed(list: Seq<u64>, actor: u64)
    requires
        list.no_duplicates(),
        !list.contains(actor),
    ensures
        list.push(actor).no_duplicates(),
        forall|a: u64| #[trigger] list.push(actor).contains(a) <==> list.contains(a) || a == actor,
{
    let longer = list.push(actor);
    assert(longer[list.len() as int] == actor);
    assert forall|a: u64| #[trigger] longer.contains(a) <==> list.contains(a) || a == actor by {
        if list.contains(a) {
            let i = choose|i: int| 0 <= i < list.len() && list[i] == a;
            assert(longer[i] == a);
        }
    }
}

/// A list that holds the actor gets shorter without it, and one that does not stays as it is.
proof fn lemma_shorter(list: Seq<u64>, actor: u64)
    ensures
        list.contains(actor) ==> without_key(list, actor).len() < list.len(),
        !list.contains(actor) ==> without_key(list, actor) == list,
    decreases list.len(),
{
    if list.len() > 0 {
        let rest = list.drop_last();
        lemma_shorter(rest, actor);
        lemma_without_key(rest, actor);
        assert(list[list.len() - 1] == list.last());
        if list.contains(actor) && list.last() != actor {
            let i = choose|i: int| 0 <= i < list.len() && list[i] == actor;
            assert(rest[i] == actor);
        }
        if !list.contains(actor) {
            if rest.contains(actor) {
                let i = choose|i: int| 0 <= i < rest.len() && rest[i] == actor;
                assert(list[i] == actor);
            }
            assert(rest.push(list.last()) =~= list);
        }
    }
}

impl StationQueues {
    /// The stations that have a queue.
    pub closed spec fn stations_in_order(self) -> Seq<EntityCoordinates> {
        self.queues.keys_in_order()
    }

    /// The stations that have a queue are those at which someone wants or waits.
    pub proof fn stations_have_queues(self)
        requires
            self.wf(),
        ensures
            self.stations_in_order().no_duplicates(),
            forall|c: EntityCoordinates| #[trigger]
                self.stations_in_order().contains(c) <==> self.wanting_at(c).len()
                    + self.waiting_at(c).len() > 0,
    {
        self.queues.keys_are_the_domain();
        assert forall|c: EntityCoordinates| #[trigger]
            self.stations_in_order().contains(c) <==> self.wanting_at(c).len()
                + self.waiting_at(c).len() > 0 by {
            if self.queues@.contains_key(c) {
                assert(self.queues@[c].proper());
            }
        }
    }

    fn stations(&self) -> (list: Vec<EntityCoordinates>)
        ensures
            list@ == self.stations_in_order(),
    {
        let keys = self.queues.keys();
        let mut list: Vec<EntityCoordinates> = Vec::with_capacity(keys.len());
        let mut i: usize = 0;
        while i < keys.len()
            invariant
                i <= keys@.len(),
                list@ == keys@.take(i as int),
            decreases keys@.len() - i,
        {
            list.push(keys[i]);
            i += 1;
            assert(list@ =~= keys@.take(i as int));
        }
        assert(list@ =~= keys@);
        list
    }

    /// The timers of unchanged queues run on.
    pub(crate) proof fn timers_stay(self)
        requires
            self.wf(),
        ensures
            self.timers_run_on(self),
    {
        assert forall|a: u64| #[trigger]
            self.idle(a) == if self.queued(a) {
                self.idle(a)
            } else {
                None
            } by {
            self.index_names_the_queued(a);
        }
    }

    /// Timers that run on when a station is cleared ran on before, too.
    pub(crate) proof fn timers_after_clearing(
        self,
        middle: Self,
        before: Self,
        coords: EntityCoordinates,
    )
        requires
            self.timers_run_on(middle),
            middle.timers_run_on(before),
            forall|c: EntityCoordinates| #[trigger]
                self.wanting_at(c) == if c == coords {
                    Seq::<u64>::empty()
                } else {
                    middle.wanting_at(c)
                },
            forall|c: EntityCoordinates| #[trigger]
                self.waiting_at(c) == if c == coords {
                    Seq::<u64>::empty()
                } else {
                    middle.waiting_at(c)
                },
        ensures
            self.timers_run_on(before),
    {
        assert forall|a: u64| self.queued(a) implies #[trigger] middle.queued(a) by {
            let c = choose|c: EntityCoordinates|
                #![trigger self.wanting_at(c)]
                self.wanting_at(c).contains(a) || self.waiting_at(c).contains(a);
            assert(self.waiting_at(c) == if c == coords {
                Seq::<u64>::empty()
            } else {
                middle.waiting_at(c)
            });
            assert(middle.wanting_at(c).contains(a) || middle.waiting_at(c).contains(a));
        }
        self.timers_chain(middle, before);
    }

    proof fn timers_chain(self, middle: Self, before: Self)
        requires
            self.timers_run_on(middle),
            middle.timers_run_on(before),
            forall|a: u64| self.queued(a) ==> #[trigger] middle.queued(a),
        ensures
            self.timers_run_on(before),
    {
        assert forall|a: u64| #[trigger]
            self.idle(a) == if self.queued(a) {
                before.idle(a)
            } else {
                None
            } by {
            if self.queued(a) {
                assert(middle.queued(a));
                assert(middle.idle(a) == before.idle(a));
            }
        }
    }

    /// Queues that only lost actors hold no new ones.
    proof fn fewer_queued(self, before: Self, lost: u64)
        requires
            forall|c: EntityCoordinates| #[trigger]
                self.wanting_at(c) == before.wanting_at(c) || self.wanting_at(c) == without_key(
                    before.wanting_at(c),
                    lost,
                ),
            forall|c: EntityCoordinates| #[trigger]
                self.waiting_at(c) == before.waiting_at(c) || self.waiting_at(c) == without_key(
                    before.waiting_at(c),
                    lost,
                ),
        ensures
            forall|a: u64| self.queued(a) ==> #[trigger] before.queued(a),
    {
        assert forall|a: u64| self.queued(a) implies #[trigger] before.queued(a) by {
            self.was_queued(before, lost, a);
        }
    }

    proof fn was_queued(self, before: Self, lost: u64, a: u64)
        requires
            forall|c: EntityCoordinates| #[trigger]
                self.wanting_at(c) == before.wanting_at(c) || self.wanting_at(c) == without_key(
                    before.wanting_at(c),
                    lost,
                ),
            forall|c: EntityCoordinates| #[trigger]
                self.waiting_at(c) == before.waiting_at(c) || self.waiting_at(c) == without_key(
                    before.waiting_at(c),
                    lost,
                ),
            self.queued(a),
        ensures
            before.queued(a),
    {
        let c = choose|c: EntityCoordinates|
            #![trigger self.wanting_at(c)]
            self.wanting_at(c).contains(a) || self.waiting_at(c).contains(a);
        let wanted = before.wanting_at(c);
        lemma_without_key(wanted, lost);
        lemma_without_key(before.waiting_at(c), lost);
        if self.wanting_at(c).contains(a) {
            assert(wanted.contains(a) || without_key(wanted, lost).contains(a));
        } else {
            assert(before.waiting_at(c).contains(a) || without_key(
                before.waiting_at(c),
                lost,
            ).contains(a));
        }
        assert(wanted.contains(a) || before.waiting_at(c).contains(a));
    }

    proof fn has_left(self, before: Self, actor: u64)
        requires
            forall|c: EntityCoordinates| #[trigger]
                self.wanting_at(c) == without_key(before.wanting_at(c), actor),
            forall|c: EntityCoordinates| #[trigger]
                self.waiting_at(c) == without_key(before.waiting_at(c), actor),
        ensures
            !self.queued(actor),
    {
        if self.queued(actor) {
            let c = choose|c: EntityCoordinates|
                #![trigger self.wanting_at(c)]
                self.wanting_at(c).contains(actor) || self.waiting_at(c).contains(actor);
            lemma_without_key(before.wanting_at(c), actor);
            lemma_without_key(before.waiting_at(c), actor);
            assert(self.wanting_at(c) == without_key(before.wanting_at(c), actor));
            assert(self.waiting_at(c) == without_key(before.waiting_at(c), actor));
        }
    }

    /// Drops all queue state for `coords` (used when a station is rebuilt/removed).
    pub fn clear_queues_at(&mut self, coords: EntityCoordinates)
        requires
            old(self).wf(),
        ensures
            final(self).wf(),
            forall|c: EntityCoordinates| #[trigger]
                final(self).wanting_at(c) == if c == coords {
                    Seq::<u64>::empty()
                } else {
                    old(self).wanting_at(c)
                },
            forall|c: EntityCoordinates| #[trigger]
                final(self).waiting_at(c) == if c == coords {
                    Seq::<u64>::empty()
                } else {
                    old(self).waiting_at(c)
                },
            final(self).timers_run_on(*old(self)),
    {
        let ghost before = *self;
        proof {
            assert forall|a: u64| #[trigger]
                self.idle(a) == if self.queued(a) {
                    before.idle(a)
                } else {
                    None
                } by {
                self.index_names_the_queued(a);
            }
        }
        loop
            invariant
                self.wf(),
                self.timers_run_on(before),
                forall|c: EntityCoordinates|
                    c != coords ==> #[trigger] self.wanting_at(c) == before.wanting_at(c),
                forall|c: EntityCoordinates|
                    c != coords ==> #[trigger] self.waiting_at(c) == before.waiting_at(c),
            ensures
                self.wanting_at(coords) == Seq::<u64>::empty(),
                self.waiting_at(coords) == Seq::<u64>::empty(),
            decreases self.wanting_at(coords).len() + self.waiting_at(coords).len(),
        {
            let state = self.state_at(coords);
            let actor: u64 = if state.wanting.len() > 0 {
                state.wanting[0]
            } else if state.waiting.len() > 0 {
                state.waiting[0]
            } else {
                break;
            };
            let ghost middle = *self;
            proof {
                assert(state.wanting@.len() > 0 ==> state.wanting@.contains(state.wanting@[0]));
                assert(state.waiting@.len() > 0 ==> state.waiting@.contains(state.waiting@[0]));
                lemma_shorter(state.wanting@, actor);
                lemma_shorter(state.waiting@, actor);
            }
            self.remove_actor_from_queues(coords, actor);
            proof {
                self.fewer_queued(middle, actor);
                self.timers_chain(middle, before);
            }
        }
    }

    /// Removes `actor` from every station's wanting and waiting queues. True if it was in one.
    pub fn leave_all_queues(&mut self, actor: u64) -> (changed: bool)
        requires
            old(self).wf(),
        ensures
            final(self).wf(),
            changed == old(self).queued(actor),
            forall|c: EntityCoordinates| #[trigger]
                final(self).wanting_at(c) == without_key(old(self).wanting_at(c), actor),
            forall|c: EntityCoordinates| #[trigger]
                final(self).waiting_at(c) == without_key(old(self).waiting_at(c), actor),
            final(self).timers_run_on(*old(self)),
            !final(self).queued(actor),
    {
        let ghost before = *self;
        let changed: bool = self.is_in_any_queue(actor);
        let stations = self.stations();
        proof {
            self.stations_have_queues();
            assert forall|a: u64| #[trigger]
                self.idle(a) == if self.queued(a) {
                    before.idle(a)
                } else {
                    None
                } by {
                self.index_names_the_queued(a);
            }
        }
        let mut i: usize = 0;
        while i < stations.len()
            invariant
                i <= stations@.len(),
                stations@ == before.stations_in_order(),
                stations@.no_duplicates(),
                self.wf(),
                self.timers_run_on(before),
                forall|c: EntityCoordinates| #[trigger]
                    self.wanting_at(c) == if stations@.take(i as int).contains(c) {
                        without_key(before.wanting_at(c), actor)
                    } else {
                        before.wanting_at(c)
                    },
                forall|c: EntityCoordinates| #[trigger]
                    self.waiting_at(c) == if stations@.take(i as int).contains(c) {
                        without_key(before.waiting_at(c), actor)
                    } else {
                        before.waiting_at(c)
                    },
            decreases stations@.len() - i,
        {
            let ghost middle = *self;
            let coords: EntityCoordinates = stations[i];
            proof {
                let done = stations@.take(i as int);
                let next = stations@.take(i + 1);
                assert(next =~= done.push(coords));
                assert(!done.contains(coords));
                assert forall|c: EntityCoordinates| #[trigger] next.contains(c) <==> done.contains(c)
                    || c == coords by {
                    if done.contains(c) {
                        let k = choose|k: int| 0 <= k < done.len() && done[k] == c;
                        assert(next[k] == c);
                    }
                    if next.contains(c) {
                        let k = choose|k: int| 0 <= k < next.len() && next[k] == c;
                        if k < i {
                            assert(done[k] == c);
                        }
                    }
                    assert(next[i as int] == coords);
                }
            }
            self.remove_actor_from_queues(coords, actor);
            proof {
                self.fewer_queued(middle, actor);
                self.timers_chain(middle, before);
            }
            i += 1;
        }
        proof {
            assert(stations@.take(i as int) =~= stations@);
            assert forall|c: EntityCoordinates| #[trigger] self.wanting_at(c) == without_key(
                before.wanting_at(c),
                actor,
            ) by {
                if !stations@.contains(c) {
                    assert(before.wanting_at(c) =~= Seq::<u64>::empty());
                }
            }
            assert forall|c: EntityCoordinates| #[trigger] self.waiting_at(c) == without_key(
                before.waiting_at(c),
                actor,
            ) by {
                if !stations@.contains(c) {
                    assert(before.waiting_at(c) =~= Seq::<u64>::empty());
                }
            }
            self.has_left(before, actor);
        }
        changed
    }
}

/// A timer that runs on, up to the longest time it can hold.
pub open spec fn aged(idle_ms: u64, dt_ms: u64) -> u64 {
    if idle_ms + dt_ms > u64::MAX {
        u64::MAX
    } else {
        (idle_ms + dt_ms) as u64
    }
}

impl StationQueues {
    /// Those of the first `n` watched actors that have been silent for `ttl_ms` once `dt_ms`
    /// more have passed.
    pub open spec fn gone_silent(self, dt_ms: u64, ttl_ms: u64, n: nat) -> Seq<u64>
        decreases n,
    {
        if n == 0 {
            seq![]
        } else {
            let before = self.gone_silent(dt_ms, ttl_ms, (n - 1) as nat);
            let actor = self.watched()[n - 1];
            if self.idle(actor) is Some && aged(self.idle(actor)->0, dt_ms) >= ttl_ms {
                before.push(actor)
            } else {
                before
            }
        }
    }

    proof fn lemma_silent(self, dt_ms: u64, ttl_ms: u64, n: nat, i: int)
        requires
            n <= self.watched().len(),
            0 <= i < n,
            self.idle(self.watched()[i]) matches Some(ms) && aged(ms, dt_ms) >= ttl_ms,
        ensures
            self.gone_silent(dt_ms, ttl_ms, n).contains(self.watched()[i]),
        decreases n,
    {
        let all = self.gone_silent(dt_ms, ttl_ms, n);
        let before = self.gone_silent(dt_ms, ttl_ms, (n - 1) as nat);
        if i == n - 1 {
            assert(all.last() == self.watched()[i]);
        } else {
            self.lemma_silent(dt_ms, ttl_ms, (n - 1) as nat, i);
            let k = choose|k: int| 0 <= k < before.len() && before[k] == self.watched()[i];
            assert(all[k] == self.watched()[i]);
        }
    }

    /// Nobody blocks a queue for ever: an actor that is in a queue and has been silent for the
    /// time to live is among those that are collected.
    pub proof fn silent_actors_are_collected(self, dt_ms: u64, ttl_ms: u64, actor: u64)
        requires
            self.wf(),
            self.queued(actor),
            self.idle(actor) matches Some(ms) && ms + dt_ms >= ttl_ms,
        ensures
            self.gone_silent(dt_ms, ttl_ms, self.watched().len()).contains(actor),
    {
        self.index_names_the_queued(actor);
        let i = choose|i: int| 0 <= i < self.watched().len() && self.watched()[i] == actor;
        self.lemma_silent(dt_ms, ttl_ms, self.watched().len(), i);
    }

    /// Ages every queued actor's idle timer by `dt_ms` and appends to `out` the
    /// actors that have not re-asserted their membership within `ttl_ms`.
    pub fn collect_stale_queued(&mut self, dt_ms: u64, ttl_ms: u64, out: &mut Vec<u64>)
        requires
            old(self).wf(),
        ensures
            final(self).wf(),
            final(self).same_queues(*old(self)),
            final(self).watched() == old(self).watched(),
            forall|a: u64| #[trigger]
                final(self).idle(a) == match old(self).idle(a) {
                    Some(idle_ms) => Some(aged(idle_ms, dt_ms)),
                    None => None,
                },
            final(out)@ == old(out)@ + old(self).gone_silent(
                dt_ms,
                ttl_ms,
                old(self).watched().len(),
            ),
    {
        let ghost before = *self;
        let ghost start = out@;
        proof {
            self.index.keys_are_the_domain();
        }
        let n: usize = self.index.keys().len();
        let mut i: usize = 0;
        assert(out@ =~= start + before.gone_silent(dt_ms, ttl_ms, 0));
        while i < n
            invariant
                i <= n,
                n == before.watched().len(),
                before.wf(),
                before.watched().no_duplicates(),
                self.queues == before.queues,
                self.index.wf(),
                self.index.keys_in_order() == before.watched(),
                forall|a: u64| #[trigger]
                    self.index@.contains_key(a) <==> before.index@.contains_key(a),
                forall|a: u64| #[trigger]
                    before.watched().contains(a) <==> before.index@.contains_key(a),
                forall|a: u64| #[trigger]
                    self.index@.contains_key(a) ==> self.index@[a] == if before.watched().take(
                        i as int,
                    ).contains(a) {
                        QueueMember {
                            memberships: before.index@[a].memberships,
                            idle_ms: aged(before.index@[a].idle_ms, dt_ms),
                        }
                    } else {
                        before.index@[a]
                    },
                out@ == start + before.gone_silent(dt_ms, ttl_ms, i as nat),
            decreases n - i,
        {
            let actor: u64 = self.index.keys()[i];
            let ghost done = before.watched().take(i as int);
            let ghost next = before.watched().take(i + 1);
            proof {
                assert(before.watched().contains(actor));
                assert(next =~= done.push(actor));
                assert(!done.contains(actor));
                assert forall|a: u64| #[trigger] next.contains(a) <==> done.contains(a) || a
                    == actor by {
                    if done.contains(a) {
                        let k = choose|k: int| 0 <= k < done.len() && done[k] == a;
                        assert(next[k] == a);
                    }
                    if next.contains(a) {
                        let k = choose|k: int| 0 <= k < next.len() && next[k] == a;
                        if k < i {
                            assert(done[k] == a);
                        }
                    }
                    assert(next[i as int] == actor);
                }
            }
            let blank = QueueMember { memberships: 0, idle_ms: 0 };
            let member = self.index.slot(actor, blank);
            member.idle_ms = member.idle_ms.saturating_add(dt_ms);
            let stale: bool = member.idle_ms >= ttl_ms;
            if stale {
                out.push(actor);
            }
            i += 1;
            assert(out@ =~= start + before.gone_silent(dt_ms, ttl_ms, i as nat));
        }
        proof {
            assert(before.watched().take(n as int) =~= before.watched());
            assert forall|a: u64| #[trigger] self.index@.contains_key(a) <==> self.count(a) > 0 by {
                assert(before.index@.contains_key(a) <==> before.count(a) > 0);
                assert(self.count(a) == before.count(a));
            }
            assert forall|a: u64| #[trigger]
                self.index@.contains_key(a) implies self.index@[a].memberships == self.count(a) by {
                assert(before.index@.contains_key(a));
                assert(self.count(a) == before.count(a));
            }
        }
    }
}

} // verus!
