//! The sparse map from a hypertile to the entities standing on it.
use vstd::prelude::*;

use crate::map::interactive_entity::coordinates::EntityCoordinates;
use crate::map::interactive_entity::kinds::{
    EntityType, InteractiveEntity, InteractiveEntityBehavior, InteractiveEntityEntry,
};
use crate::map::interactive_entity::station_queues::StationQueues;
use crate::map::interactive_entity::tile_list::{lemma_picked_prefix, picked, HypertileList};
use crate::table::{without_key, Table};

verus! {

/// Concrete per-hypertile list of interactive entities.
pub type InteractiveEntityHypertileList = HypertileList<InteractiveEntityEntry>;

/// Which of the entries are of the kind.
pub open spec fn of_kind(entries: Seq<InteractiveEntityEntry>, kind: EntityType) -> Seq<bool> {
    Seq::new(entries.len(), |i: int| entries[i].entity_type == kind)
}

/// The entries of one kind.
pub open spec fn kind_only(entries: Seq<InteractiveEntityEntry>, kind: EntityType) -> Seq<
    InteractiveEntityEntry,
> {
    picked(entries, of_kind(entries, kind), true, entries.len())
}

/// The entries of all kinds but one.
pub open spec fn kind_left_out(entries: Seq<InteractiveEntityEntry>, kind: EntityType) -> Seq<
    InteractiveEntityEntry,
> {
    picked(entries, of_kind(entries, kind), false, entries.len())
}

/// Whether all entries are tagged with the coordinates.
pub open spec fn stand_at(entries: Seq<InteractiveEntityEntry>, coords: EntityCoordinates) -> bool {
    forall|i: int| 0 <= i < entries.len() ==> (#[trigger] entries[i]).coordinates == coords
}

/// Sparse map from a hypertile to the interactive entities standing on it, with the queues
/// in front of them.
#[derive(Debug)]
pub struct InteractiveEntityMap {
    pub tiles: Table<EntityCoordinates, InteractiveEntityHypertileList>,
    pub queues: StationQueues,
}

impl InteractiveEntityMap {
    /// The entities on a tile, oldest first.
    pub open spec fn at(self, coords: EntityCoordinates) -> Seq<InteractiveEntityEntry> {
        if self.tiles@.contains_key(coords) {
            self.tiles@[coords]@
        } else {
            seq![]
        }
    }

    /// The tiles that have held an entity, in the order in which they first did.
    pub open spec fn tiles_in_order(self) -> Seq<EntityCoordinates> {
        self.tiles.keys_in_order()
    }

    /// Every entity is indexed under its coordinates, and the queues are in order.
    pub open spec fn wf(self) -> bool {
        &&& self.tiles.wf()
        &&& self.queues.wf()
        &&& forall|c: EntityCoordinates, i: int|
            0 <= i < self.at(c).len() ==> (#[trigger] self.at(c)[i]).coordinates == c
    }

    /// Whether every entry's tags are those of its entity.
    pub open spec fn all_tagged(self) -> bool {
        forall|c: EntityCoordinates, i: int|
            0 <= i < self.at(c).len() ==> (#[trigger] self.at(c)[i]).tagged()
    }

    /// What a sound map promises: entries stand where their tag says, and the listed tiles
    /// name every tile with an entity once.
    pub proof fn entries_stand_on_their_tiles(self)
        requires
            self.wf(),
        ensures
            self.queues.wf(),
            forall|c: EntityCoordinates, i: int|
                0 <= i < self.at(c).len() ==> (#[trigger] self.at(c)[i]).coordinates == c,
            self.tiles_in_order().no_duplicates(),
            forall|c: EntityCoordinates| #[trigger]
                self.at(c).len() > 0 ==> self.tiles_in_order().contains(c),
    {
        self.tiles.keys_are_the_domain();
        assert forall|c: EntityCoordinates| #[trigger] self.at(c).len() > 0 implies self.tiles_in_order().contains(
            c,
        ) by {
            assert(self.tiles@.contains_key(c));
        }
    }

    pub fn new() -> (map: Self)
        ensures
            map.wf(),
            map.all_tagged(),
            forall|c: EntityCoordinates| #[trigger]
                map.at(c) == Seq::<InteractiveEntityEntry>::empty(),
            forall|c: EntityCoordinates| #[trigger]
                map.queues.wanting_at(c) == Seq::<u64>::empty(),
            forall|c: EntityCoordinates| #[trigger]
                map.queues.waiting_at(c) == Seq::<u64>::empty(),
            map.tiles_in_order() == Seq::<EntityCoordinates>::empty(),
    {
        InteractiveEntityMap { tiles: Table::new(), queues: StationQueues::new() }
    }

    /// The number of entities on the first `n` listed tiles.
    pub open spec fn count_on(self, n: nat) -> nat
        decreases n,
    {
        if n == 0 {
            0
        } else {
            self.count_on((n - 1) as nat) + self.at(self.tiles_in_order()[n - 1]).len()
        }
    }

    /// The number of entities.
    pub open spec fn total(self) -> nat {
        self.count_on(self.tiles_in_order().len())
    }

    proof fn lemma_count_grows(self, m: nat, n: nat)
        requires
            m <= n,
        ensures
            self.count_on(m) <= self.count_on(n),
        decreases n,
    {
        if m < n {
            self.lemma_count_grows(m, (n - 1) as nat);
        }
    }

    /// Total entity count across every hypertile.
    pub fn len(&self) -> (n: usize)
        requires
            self.wf(),
            self.total() <= usize::MAX,
        ensures
            n == self.total(),
    {
        let mut n: usize = 0;
        let mut i: usize = 0;
        let keys = self.tiles.keys();
        proof {
            self.tiles.keys_are_the_domain();
        }
        while i < keys.len()
            invariant
                i <= keys@.len(),
                keys@ == self.tiles_in_order(),
                n == self.count_on(i as nat),
                self.total() <= usize::MAX,
                forall|k: EntityCoordinates|
                    keys@.contains(k) <==> #[trigger] self.tiles@.contains_key(k),
            decreases keys@.len() - i,
        {
            let k: EntityCoordinates = keys[i];
            assert(keys@.contains(k));
            proof {
                self.lemma_count_grows((i + 1) as nat, keys@.len());
            }
            match self.tiles.get(k) {
                Some(list) => {
                    n = n + list.len();
                },
                None => {},
            }
            i += 1;
        }
        n
    }

    /// `true` when no entity is stored anywhere.
    pub fn is_empty(&self) -> (empty: bool)
        requires
            self.wf(),
        ensures
            empty <==> forall|c: EntityCoordinates| #[trigger] self.at(c).len() == 0,
    {
        let keys = self.tiles.keys();
        proof {
            self.tiles.keys_are_the_domain();
        }
        let mut i: usize = 0;
        while i < keys.len()
            invariant
                i <= keys@.len(),
                keys@ == self.tiles_in_order(),
                forall|k: EntityCoordinates|
                    keys@.contains(k) <==> #[trigger] self.tiles@.contains_key(k),
                forall|j: int| 0 <= j < i ==> self.at(#[trigger] keys@[j]).len() == 0,
            decreases keys@.len() - i,
        {
            let k: EntityCoordinates = keys[i];
            assert(keys@.contains(k));
            match self.tiles.get(k) {
                Some(list) => {
                    if !list.is_empty() {
                        assert(self.at(k).len() > 0);
                        return false;
                    }
                },
                None => {},
            }
            i += 1;
        }
        proof {
            assert forall|c: EntityCoordinates| #[trigger] self.at(c).len() == 0 by {
                if self.tiles@.contains_key(c) {
                    assert(keys@.contains(c));
                    let j = choose|j: int| 0 <= j < keys@.len() && keys@[j] == c;
                    assert(self.at(keys@[j]).len() == 0);
                }
            }
        }
        true
    }

    /// The number of the first `n` listed tiles that hold an entity.
    pub open spec fn occupied_on(self, n: nat) -> nat
        decreases n,
    {
        if n == 0 {
            0
        } else {
            self.occupied_on((n - 1) as nat) + if self.at(self.tiles_in_order()[n - 1]).len() > 0 {
                1nat
            } else {
                0
            }
        }
    }

    /// Number of hypertiles that hold at least one entity.
    pub fn occupied_tiles(&self) -> (n: usize)
        requires
            self.wf(),
        ensures
            n == self.occupied_on(self.tiles_in_order().len()),
    {
        let keys = self.tiles.keys();
        proof {
            self.tiles.keys_are_the_domain();
        }
        let mut n: usize = 0;
        let mut i: usize = 0;
        while i < keys.len()
            invariant
                n <= i <= keys@.len(),
                keys@ == self.tiles_in_order(),
                n == self.occupied_on(i as nat),
                forall|k: EntityCoordinates|
                    keys@.contains(k) <==> #[trigger] self.tiles@.contains_key(k),
            decreases keys@.len() - i,
        {
            let k: EntityCoordinates = keys[i];
            assert(keys@.contains(k));
            match self.tiles.get(k) {
                Some(list) => {
                    if !list.is_empty() {
                        n = n + 1;
                    }
                },
                None => {},
            }
            i += 1;
        }
        n
    }

    /// Inserts an entity, indexing it under its own coordinates. The entity's
    /// `(type, coordinates)` become the entry tags.
    pub fn insert(&mut self, entity: InteractiveEntity)
        requires
            old(self).wf(),
        ensures
            final(self).wf(),
            old(self).all_tagged() ==> final(self).all_tagged(),
            final(self).queues == old(self).queues,
            exists|entry: InteractiveEntityEntry|
                entry.tagged() && entry.entity == entity && #[trigger] final(self).inserted(
                    *old(self),
                    entry,
                ),
    {
        let entry = InteractiveEntityEntry::new(entity);
        let ghost kept = entry;
        let ghost before = *self;
        self.insert_entry(entry);
        proof {
            assert(self.inserted(before, kept));
            if before.all_tagged() {
                assert forall|c: EntityCoordinates, i: int|
                    0 <= i < self.at(c).len() implies (#[trigger] self.at(c)[i]).tagged() by {
                    if i < before.at(c).len() {
                        assert(before.at(c)[i].tagged());
                    }
                }
            }
        }
    }

    /// How the tiles look after an entry was added.
    pub open spec fn inserted(self, before: Self, entry: InteractiveEntityEntry) -> bool {
        &&& forall|c: EntityCoordinates| #[trigger]
            self.at(c) == if c == entry.coordinates {
                before.at(c).push(entry)
            } else {
                before.at(c)
            }
        &&& self.tiles_in_order() == before.tiles_in_order() || self.tiles_in_order()
            == before.tiles_in_order().push(entry.coordinates)
    }

    /// Inserts a pre-built entry, indexing it under its `coordinates` tag.
    pub fn insert_entry(&mut self, entry: InteractiveEntityEntry)
        requires
            old(self).wf(),
        ensures
            final(self).wf(),
            final(self).queues == old(self).queues,
            final(self).inserted(*old(self), entry),
    {
        let ghost before = *self;
        let ghost kept = entry;
        let coords: EntityCoordinates = entry.coordinates;
        let list = self.tiles.slot(coords, HypertileList::new());
        list.push(entry);
        proof {
            assert forall|c: EntityCoordinates, i: int| 0 <= i < self.at(c).len() implies (
            #[trigger] self.at(c)[i]).coordinates == c by {
                if i < before.at(c).len() {
                    assert(before.at(c)[i].coordinates == c);
                }
            }
        }
    }

    /// The list of entities on `coords`, if any are present.
    pub fn list_at(&self, coords: EntityCoordinates) -> (list: Option<
        &InteractiveEntityHypertileList,
    >)
        ensures
            match list {
                Some(l) => l@ == self.at(coords) && l@.len() > 0,
                None => self.at(coords).len() == 0,
            },
    {
        match self.tiles.get(coords) {
            Some(list) => if list.is_empty() {
                None
            } else {
                Some(list)
            },
            None => None,
        }
    }

    /// Mutable list of entities on `coords`, if any are present. What stands on the tile
    /// must stay there.
    pub fn list_at_mut(&mut self, coords: EntityCoordinates) -> (list: Option<
        &mut InteractiveEntityHypertileList,
    >)
        requires
            old(self).wf(),
        ensures
            list is Some <==> old(self).at(coords).len() > 0,
            list is None ==> *final(self) == *old(self),
            final(self).queues == old(self).queues,
            list matches Some(l) ==> l@ == old(self).at(coords),
            list matches Some(l) ==> forall|c: EntityCoordinates| #[trigger]
                final(self).at(c) == if c == coords {
                    final(l)@
                } else {
                    old(self).at(c)
                },
            list matches Some(l) ==> (stand_at(final(l)@, coords) ==> final(self).wf()),
    {
        let held: bool = match self.tiles.get(coords) {
            Some(list) => !list.is_empty(),
            None => false,
        };
        if !held {
            return None;
        }
        proof {
            lemma_list_changed(*self, coords);
        }
        Some(self.tiles.slot(coords, HypertileList::new()))
    }
}

/// A map of which one list changed is sound if that list's entries stand where they did.
proof fn lemma_list_changed(before: InteractiveEntityMap, coords: EntityCoordinates)
    requires
        before.wf(),
    ensures
        forall|after: InteractiveEntityMap, list: InteractiveEntityHypertileList|
            #![trigger after.wf(), before.tiles@.insert(coords, list)]
            {
                &&& after.tiles@ == before.tiles@.insert(coords, list)
                &&& after.tiles.wf()
                &&& after.queues == before.queues
                &&& stand_at(list@, coords)
            } ==> after.wf(),
{
    assert forall|after: InteractiveEntityMap, list: InteractiveEntityHypertileList|
        #![trigger after.wf(), before.tiles@.insert(coords, list)]
        {
            &&& after.tiles@ == before.tiles@.insert(coords, list)
            &&& after.tiles.wf()
            &&& after.queues == before.queues
            &&& stand_at(list@, coords)
        } implies after.wf() by {
        assert forall|c: EntityCoordinates, i: int| 0 <= i < after.at(c).len() implies (
        #[trigger] after.at(c)[i]).coordinates == c by {
            if c == coords {
                assert(list@[i].coordinates == coords);
            } else {
                assert(before.at(c)[i].coordinates == c);
            }
        }
    }
}

impl InteractiveEntityMap {
    /// Every entity standing on `coords` (empty slice if none).
    pub fn entities_at(&self, coords: EntityCoordinates) -> (entries: &[InteractiveEntityEntry])
        ensures
            entries@ == self.at(coords),
    {
        match self.tiles.get(coords) {
            Some(list) => list.items(),
            None => &[],
        }
    }

    /// Removes and returns every entity on `coords`, dropping the (now empty) tile.
    pub fn remove_all_at(&mut self, coords: EntityCoordinates) -> (removed: Vec<
        InteractiveEntityEntry,
    >)
        requires
            old(self).wf(),
        ensures
            final(self).wf(),
            final(self).queues == old(self).queues,
            removed@ == old(self).at(coords),
            forall|c: EntityCoordinates| #[trigger]
                final(self).at(c) == if c == coords {
                    Seq::<InteractiveEntityEntry>::empty()
                } else {
                    old(self).at(c)
                },
            final(self).tiles_in_order() == without_key(old(self).tiles_in_order(), coords),
    {
        let ghost before = *self;
        let taken = self.tiles.remove(coords);
        proof {
            assert forall|c: EntityCoordinates, i: int| 0 <= i < self.at(c).len() implies (
            #[trigger] self.at(c)[i]).coordinates == c by {
                assert(before.at(c)[i].coordinates == c);
            }
        }
        match taken {
            Some(list) => list.items,
            None => Vec::new(),
        }
    }

    /// Removes every entity of `kind` on `coords`, returning them.
    pub fn remove_of_type_at(&mut self, coords: EntityCoordinates, kind: EntityType) -> (removed:
        Vec<InteractiveEntityEntry>)
        requires
            old(self).wf(),
        ensures
            final(self).wf(),
            final(self).queues == old(self).queues,
            removed@ == kind_only(old(self).at(coords), kind),
            forall|c: EntityCoordinates| #[trigger]
                final(self).at(c) == if c == coords {
                    kind_left_out(old(self).at(c), kind)
                } else {
                    old(self).at(c)
                },
    {
        let ghost before = *self;
        if !self.tiles.contains(coords) {
            return Vec::new();
        }
        let mut list: InteractiveEntityHypertileList = match self.tiles.remove(coords) {
            Some(list) => list,
            None => HypertileList::new(),
        };
        let ghost entries = list@;
        let matches_kind = |entry: &InteractiveEntityEntry| -> (hit: bool)
            ensures
                hit == (entry.entity_type == kind),
        {
            entry.entity_type == kind
        };
        let removed = list.remove_matching(matches_kind);
        proof {
            let flags = choose|flags: Seq<bool>|
                {
                    &&& flags.len() == entries.len()
                    &&& forall|i: int|
                        0 <= i < flags.len() ==> (#[trigger] flags[i]) == (entries[i].entity_type
                            == kind)
                    &&& list@ == #[trigger] picked(entries, flags, false, entries.len())
                    &&& removed@ == picked(entries, flags, true, entries.len())
                };
            lemma_picked_prefix(entries, flags, of_kind(entries, kind), false, entries.len());
            lemma_picked_prefix(entries, flags, of_kind(entries, kind), true, entries.len());
            assert(entries == before.at(coords));
            assert forall|i: int| 0 <= i < entries.len() implies (
            #[trigger] entries[i]).coordinates == coords by {
                assert(before.at(coords)[i].coordinates == coords);
            }
            lemma_picked_stand(entries, of_kind(entries, kind), false, entries.len(), coords);
        }
        let ghost kept = list@;
        if !list.is_empty() {
            let slot = self.tiles.slot(coords, HypertileList::new());
            *slot = list;
        }
        proof {
            assert forall|c: EntityCoordinates| #[trigger]
                self.at(c) == if c == coords {
                    kind_left_out(before.at(c), kind)
                } else {
                    before.at(c)
                } by {
                if c == coords {
                    assert(self.at(c) =~= kept);
                }
            }
            assert forall|c: EntityCoordinates, i: int| 0 <= i < self.at(c).len() implies (
            #[trigger] self.at(c)[i]).coordinates == c by {
                if c != coords {
                    assert(before.at(c)[i].coordinates == c);
                } else {
                    assert(kept[i].coordinates == coords);
                }
            }
        }
        removed
    }

    /// Drops every entity and every queue in the map.
    pub fn clear(&mut self)
        ensures
            final(self).wf(),
            final(self).all_tagged(),
            forall|c: EntityCoordinates| #[trigger]
                final(self).at(c) == Seq::<InteractiveEntityEntry>::empty(),
            forall|c: EntityCoordinates| #[trigger]
                final(self).queues.wanting_at(c) == Seq::<u64>::empty(),
            forall|c: EntityCoordinates| #[trigger]
                final(self).queues.waiting_at(c) == Seq::<u64>::empty(),
            final(self).tiles_in_order() == Seq::<EntityCoordinates>::empty(),
    {
        *self = InteractiveEntityMap::new();
    }
}

proof fn lemma_picked_stand(
    entries: Seq<InteractiveEntityEntry>,
    flags: Seq<bool>,
    wanted: bool,
    n: nat,
    coords: EntityCoordinates,
)
    requires
        stand_at(entries, coords),
        n <= entries.len(),
        n <= flags.len(),
    ensures
        stand_at(picked(entries, flags, wanted, n), coords),
    decreases n,
{
    if n > 0 {
        lemma_picked_stand(entries, flags, wanted, (n - 1) as nat, coords);
        assert(entries[n - 1].coordinates == coords);
    }
}

/// How an entry looks after an actor has left everything: a charger that it was docked at
/// is free and out of use, everything else is as before.
pub open spec fn released(
    before: InteractiveEntityEntry,
    after: InteractiveEntityEntry,
    actor: u64,
) -> bool {
    match before.entity {
        InteractiveEntity::Charger(c) => if c.docked() == Some(actor) {
            &&& after.entity_type == before.entity_type
            &&& after.coordinates == before.coordinates
            &&& after.entity matches InteractiveEntity::Charger(d) && {
                &&& d.docked() is None
                &&& !d.used()
                &&& d.same_station(c)
                &&& d.energy() == c.energy()
            }
        } else {
            after == before
        },
        InteractiveEntity::PartsDepot(_) => after == before,
    }
}

/// Whether the entry is a charger at which the actor is docked.
pub open spec fn docks(entry: InteractiveEntityEntry, actor: u64) -> bool {
    entry.entity matches InteractiveEntity::Charger(c) && c.docked() == Some(actor)
}

/// Whether every entry is the one before, released.
pub open spec fn all_released(
    before: Seq<InteractiveEntityEntry>,
    after: Seq<InteractiveEntityEntry>,
    actor: u64,
) -> bool {
    after.len() == before.len() && forall|i: int|
        0 <= i < before.len() ==> released(before[i], #[trigger] after[i], actor)
}

fn release_entry(entry: &mut InteractiveEntityEntry, actor: u64) -> (changed: bool)
    ensures
        released(*old(entry), *final(entry), actor),
        changed == docks(*old(entry), actor),
{
    match entry.entity.as_charger_mut() {
        Some(charger) => {
            let held: bool = match charger.occupant() {
                Some(a) => a == actor,
                None => false,
            };
            if held {
                charger.set_occupant(None);
            }
            held
        },
        None => false,
    }
}

fn release_list(list: &mut InteractiveEntityHypertileList, actor: u64) -> (changed: bool)
    ensures
        all_released(old(list)@, final(list)@, actor),
        changed <==> exists|i: int|
            0 <= i < old(list)@.len() && docks(#[trigger] old(list)@[i], actor),
{
    let ghost before = list@;
    let mut changed: bool = false;
    let mut i: usize = 0;
    while i < list.items.len()
        invariant
            i <= list@.len(),
            list@.len() == before.len(),
            forall|j: int| 0 <= j < i ==> released(before[j], #[trigger] list@[j], actor),
            forall|j: int| i <= j < before.len() ==> #[trigger] list@[j] == before[j],
            changed <==> exists|j: int| 0 <= j < i && docks(#[trigger] before[j], actor),
        decreases list@.len() - i,
    {
        let ghost mid = list@;
        assert(mid[i as int] == before[i as int]);
        let hit: bool = release_entry(&mut list.items[i], actor);
        proof {
            assert forall|j: int| 0 <= j < i + 1 implies released(
                before[j],
                #[trigger] list@[j],
                actor,
            ) by {
                if j < i {
                    assert(list@[j] == mid[j]);
                }
            }
            assert forall|j: int| i + 1 <= j < before.len() implies #[trigger] list@[j]
                == before[j] by {
                assert(list@[j] == mid[j]);
            }
            if hit {
                assert(docks(before[i as int], actor));
            }
        }
        changed = changed || hit;
        i += 1;
    }
    changed
}

impl InteractiveEntityMap {
    /// Removes `actor` from **every** station's wanting and waiting queues and
    /// releases it as the occupant of any charger it holds. Used when a bot goes
    /// non-operational (broken / depleted). Returns `true` if anything
    /// was changed (the actor was found in at least one queue or charger).
    pub fn evict_actor_everywhere(&mut self, actor: u64) -> (changed: bool)
        requires
            old(self).wf(),
        ensures
            final(self).wf(),
            forall|c: EntityCoordinates|
                all_released(old(self).at(c), #[trigger] final(self).at(c), actor),
            forall|c: EntityCoordinates| #[trigger]
                final(self).queues.wanting_at(c) == without_key(
                    old(self).queues.wanting_at(c),
                    actor,
                ),
            forall|c: EntityCoordinates| #[trigger]
                final(self).queues.waiting_at(c) == without_key(
                    old(self).queues.waiting_at(c),
                    actor,
                ),
            final(self).queues.timers_run_on(old(self).queues),
            !final(self).queues.queued(actor),
            changed <==> old(self).queues.queued(actor) || exists|c: EntityCoordinates, i: int|
                0 <= i < old(self).at(c).len() && docks(#[trigger] old(self).at(c)[i], actor),
    {
        let ghost before = *self;
        let mut changed: bool = self.queues.leave_all_queues(actor);
        let ghost in_queue = changed;
        let ghost queues = self.queues;
        proof {
            self.tiles.keys_are_the_domain();
        }
        let n: usize = self.tiles.keys().len();
        let mut k: usize = 0;
        while k < n
            invariant
                k <= n,
                before.wf(),
                n == before.tiles_in_order().len(),
                before.tiles_in_order().no_duplicates(),
                self.tiles.wf(),
                self.tiles.keys_in_order() == before.tiles_in_order(),
                self.queues == queues,
                forall|c: EntityCoordinates|
                    before.tiles_in_order().contains(c) <==> #[trigger] before.tiles@.contains_key(
                        c,
                    ),
                forall|c: EntityCoordinates| #[trigger]
                    self.tiles@.contains_key(c) <==> before.tiles@.contains_key(c),
                forall|j: int|
                    0 <= j < k ==> all_released(
                        before.at(#[trigger] before.tiles_in_order()[j]),
                        self.at(before.tiles_in_order()[j]),
                        actor,
                    ),
                forall|j: int|
                    k <= j < n ==> self.at(#[trigger] before.tiles_in_order()[j]) == before.at(
                        before.tiles_in_order()[j],
                    ),
                changed <==> in_queue || exists|j: int, i: int|
                    0 <= j < k && 0 <= i < before.at(before.tiles_in_order()[j]).len() && docks(
                        #[trigger] before.at(before.tiles_in_order()[j])[i],
                        actor,
                    ),
            decreases n - k,
        {
            let coords: EntityCoordinates = self.tiles.keys()[k];
            let ghost order = before.tiles_in_order();
            let ghost mid = *self;
            proof {
                assert(order.contains(coords));
                assert(self.at(order[k as int]) == before.at(order[k as int]));
            }
            let list = self.tiles.slot(coords, HypertileList::new());
            let hit: bool = release_list(list, actor);
            proof {
                assert forall|j: int| 0 <= j < n && j != k implies self.at(#[trigger] order[j])
                    == mid.at(order[j]) by {
                    assert(order[j] != order[k as int]);
                }
                assert forall|j: int| 0 <= j < k + 1 implies all_released(
                    before.at(#[trigger] order[j]),
                    self.at(order[j]),
                    actor,
                ) by {
                    if j < k {
                        assert(self.at(order[j]) == mid.at(order[j]));
                    }
                }
                if hit {
                    let i = choose|i: int|
                        0 <= i < before.at(coords).len() && docks(
                            #[trigger] before.at(coords)[i],
                            actor,
                        );
                    assert(docks(before.at(order[k as int])[i], actor));
                }
            }
            changed = changed || hit;
            k += 1;
        }
        proof {
            let order = before.tiles_in_order();
            assert forall|c: EntityCoordinates| all_released(
                before.at(c),
                #[trigger] self.at(c),
                actor,
            ) by {
                if before.tiles@.contains_key(c) {
                    assert(order.contains(c));
                    let j = choose|j: int| 0 <= j < order.len() && order[j] == c;
                    assert(all_released(before.at(order[j]), self.at(order[j]), actor));
                }
            }
            assert forall|c: EntityCoordinates, i: int| 0 <= i < self.at(c).len() implies (
            #[trigger] self.at(c)[i]).coordinates == c by {
                assert(all_released(before.at(c), self.at(c), actor));
                assert(released(before.at(c)[i], self.at(c)[i], actor));
                assert(before.at(c)[i].coordinates == c);
            }
            if exists|c: EntityCoordinates, i: int|
                0 <= i < before.at(c).len() && docks(#[trigger] before.at(c)[i], actor) {
                let (c, i) = choose|c: EntityCoordinates, i: int|
                    0 <= i < before.at(c).len() && docks(#[trigger] before.at(c)[i], actor);
                assert(before.tiles@.contains_key(c));
                assert(order.contains(c));
                let j = choose|j: int| 0 <= j < order.len() && order[j] == c;
                assert(docks(before.at(order[j])[i], actor));
            }
        }
        changed
    }
}

proof fn lemma_picked_tagged(
    entries: Seq<InteractiveEntityEntry>,
    flags: Seq<bool>,
    wanted: bool,
    n: nat,
)
    requires
        n <= entries.len(),
        forall|i: int| 0 <= i < entries.len() ==> (#[trigger] entries[i]).tagged(),
    ensures
        forall|i: int|
            0 <= i < picked(entries, flags, wanted, n).len() ==> (#[trigger] picked(
                entries,
                flags,
                wanted,
                n,
            )[i]).tagged(),
    decreases n,
{
    if n > 0 {
        let fewer = picked(entries, flags, wanted, (n - 1) as nat);
        let all = picked(entries, flags, wanted, n);
        lemma_picked_tagged(entries, flags, wanted, (n - 1) as nat);
        assert forall|i: int| 0 <= i < all.len() implies (#[trigger] all[i]).tagged() by {
            if i < fewer.len() {
                assert(all[i] == fewer[i]);
            } else {
                assert(all[i] == entries[n - 1]);
            }
        }
    }
}

/// The tags of entries never drift from their entities: whatever is removed by kind or
/// released, the entries that are left still carry the kind and the place of their entity.
pub proof fn tags_never_drift(
    before: Seq<InteractiveEntityEntry>,
    after: Seq<InteractiveEntityEntry>,
    kind: EntityType,
    actor: u64,
)
    requires
        forall|i: int| 0 <= i < before.len() ==> (#[trigger] before[i]).tagged(),
        all_released(before, after, actor),
    ensures
        forall|i: int|
            0 <= i < kind_left_out(before, kind).len() ==> (#[trigger] kind_left_out(
                before,
                kind,
            )[i]).tagged(),
        forall|i: int| 0 <= i < after.len() ==> (#[trigger] after[i]).tagged(),
{
    lemma_picked_tagged(before, of_kind(before, kind), false, before.len());
    assert forall|i: int| 0 <= i < after.len() implies (#[trigger] after[i]).tagged() by {
        assert(before[i].tagged());
        assert(released(before[i], after[i], actor));
    }
}

} // verus!
