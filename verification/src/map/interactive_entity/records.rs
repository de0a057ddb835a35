//! The saved form of the entities: a flat list of plain records, each with its coordinates.
//! Who is docked at a charger is not saved: actors do not outlive a session.
use vstd::prelude::*;

use crate::map::interactive_entity::coordinates::EntityCoordinates;
use crate::map::interactive_entity::entity_map::InteractiveEntityMap;
use crate::map::interactive_entity::kinds::{
    ChargerEntity, EntityType, InteractiveEntity, InteractiveEntityBehavior,
    InteractiveEntityEntry, PartsDepotEntity,
};
use crate::map::interactive_entity::locators::{behind, passing};
use crate::map::interactive_entity::props::pairs_map;
use crate::map::world_map::ChargerFacing;

verus! {

/// What is saved of an entity besides what all kinds have in common; energy in thousandths.
#[derive(Debug, Clone, Copy, PartialEq, Eq, Structural)]
pub enum SavedKind {
    Charger { charge_level: i64, capacity: i64 },
    PartsDepot,
}

/// One saved entry.
#[derive(Debug)]
pub struct EntityRecord {
    pub entity_type: EntityType,
    pub coordinates: EntityCoordinates,
    pub kind: SavedKind,
    pub place: EntityCoordinates,
    pub facing: ChargerFacing,
    pub is_used: bool,
    pub props: Vec<(String, String)>,
}

impl EntityRecord {
    /// Whether the record tells everything about the entry but who is docked.
    pub open spec fn tells(self, entry: InteractiveEntityEntry) -> bool {
        &&& self.entity_type == entry.entity_type
        &&& self.coordinates == entry.coordinates
        &&& self.place == entry.entity.place()
        &&& self.is_used == entry.entity.used()
        &&& pairs_map(self.props@) == entry.entity.prop_map()
        &&& match entry.entity {
            InteractiveEntity::Charger(c) => self.facing == c.edge() && (self.kind matches
                SavedKind::Charger { charge_level, capacity } && charge_level == c.energy()
                && capacity == c.limit()),
            InteractiveEntity::PartsDepot(d) => self.facing == d.edge() && self.kind is PartsDepot,
        }
    }

    /// The entry that a record tells of, with nobody docked.
    pub fn restore(&self) -> (entry: InteractiveEntityEntry)
        ensures
            self.tells(entry),
            undocked(entry),
    {
        let entity = match self.kind {
            SavedKind::Charger { charge_level, capacity } => InteractiveEntity::Charger(
                ChargerEntity::saved(
                    self.place,
                    self.facing,
                    charge_level,
                    capacity,
                    self.is_used,
                    &self.props,
                ),
            ),
            SavedKind::PartsDepot => InteractiveEntity::PartsDepot(
                PartsDepotEntity::saved(self.place, self.facing, self.is_used, &self.props),
            ),
        };
        InteractiveEntityEntry {
            entity_type: self.entity_type,
            coordinates: self.coordinates,
            entity,
        }
    }
}

/// Whether nobody is docked.
pub open spec fn undocked(entry: InteractiveEntityEntry) -> bool {
    entry.entity matches InteractiveEntity::Charger(c) ==> c.docked() is None
}

impl InteractiveEntityEntry {
    /// What is saved of the entry.
    pub fn to_record(&self) -> (record: EntityRecord)
        ensures
            record.tells(*self),
    {
        let (kind, facing): (SavedKind, ChargerFacing) = match &self.entity {
            InteractiveEntity::Charger(c) => (
                SavedKind::Charger { charge_level: c.charge_level(), capacity: c.capacity() },
                c.facing(),
            ),
            InteractiveEntity::PartsDepot(d) => (SavedKind::PartsDepot, d.facing()),
        };
        EntityRecord {
            entity_type: self.entity_type,
            coordinates: self.coordinates,
            kind,
            place: self.entity.coordinates(),
            facing,
            is_used: self.entity.is_used(),
            props: self.entity.props(),
        }
    }
}

/// Those of the first `n` records that belong to the tile, in order.
pub open spec fn records_at(records: Seq<EntityRecord>, c: EntityCoordinates, n: nat) -> Seq<
    EntityRecord,
>
    decreases n,
{
    if n == 0 {
        seq![]
    } else {
        let before = records_at(records, c, (n - 1) as nat);
        if records[n - 1].coordinates == c {
            before.push(records[n - 1])
        } else {
            before
        }
    }
}

/// Whether the records tell of the entries, one of each.
pub open spec fn tell_all(
    records: Seq<EntityRecord>,
    entries: Seq<InteractiveEntityEntry>,
) -> bool {
    records.len() == entries.len() && forall|i: int|
        0 <= i < records.len() ==> (#[trigger] records[i]).tells(entries[i])
}

impl InteractiveEntityMap {
    /// What is saved of the entities of a world, tile by tile.
    pub fn to_records(&self) -> (records: Vec<EntityRecord>)
        requires
            self.wf(),
        ensures
            tell_all(records@, self.found(|e: InteractiveEntityEntry| true)),
    {
        let entries = self.iter();
        let mut records: Vec<EntityRecord> = Vec::with_capacity(entries.len());
        let mut i: usize = 0;
        while i < entries.len()
            invariant
                i <= entries@.len(),
                records@.len() == i,
                forall|j: int| 0 <= j < i ==> (#[trigger] records@[j]).tells(*entries@[j]),
            decreases entries@.len() - i,
        {
            records.push(entries[i].to_record());
            i += 1;
        }
        assert forall|j: int| 0 <= j < records@.len() implies (#[trigger] records@[j]).tells(
            behind(entries@)[j],
        ) by {
            assert(behind(entries@)[j] == *entries@[j]);
        }
        records
    }

    /// The entities that the records tell of, with nobody docked and no queues.
    pub fn from_records(records: &Vec<EntityRecord>) -> (map: Self)
        ensures
            map.wf(),
            forall|c: EntityCoordinates|
                tell_all(records_at(records@, c, records@.len()), #[trigger] map.at(c)),
            forall|c: EntityCoordinates, i: int|
                0 <= i < map.at(c).len() ==> undocked(#[trigger] map.at(c)[i]),
            forall|c: EntityCoordinates| #[trigger]
                map.queues.wanting_at(c) == Seq::<u64>::empty(),
            forall|c: EntityCoordinates| #[trigger]
                map.queues.waiting_at(c) == Seq::<u64>::empty(),
    {
        let mut map = InteractiveEntityMap::new();
        let ghost start = map.queues;
        let mut i: usize = 0;
        while i < records.len()
            invariant
                i <= records@.len(),
                map.wf(),
                map.queues == start,
                forall|c: EntityCoordinates|
                    tell_all(records_at(records@, c, i as nat), #[trigger] map.at(c)),
                forall|c: EntityCoordinates, j: int|
                    0 <= j < map.at(c).len() ==> undocked(#[trigger] map.at(c)[j]),
            decreases records@.len() - i,
        {
            let ghost before = map;
            let entry = records[i].restore();
            let ghost added = entry;
            map.insert_entry(entry);
            proof {
                assert forall|c: EntityCoordinates|
                    tell_all(records_at(records@, c, (i + 1) as nat), #[trigger] map.at(c)) by {
                    assert(tell_all(records_at(records@, c, i as nat), before.at(c)));
                    if c == added.coordinates {
                        assert(map.at(c) == before.at(c).push(added));
                    }
                }
                assert forall|c: EntityCoordinates, j: int|
                    0 <= j < map.at(c).len() implies undocked(#[trigger] map.at(c)[j]) by {
                    if j < before.at(c).len() {
                        assert(map.at(c)[j] == before.at(c)[j]);
                    } else {
                        assert(map.at(c)[j] == added);
                    }
                }
            }
            i += 1;
        }
        map
    }
}

proof fn lemma_passing_all(entries: Seq<InteractiveEntityEntry>, n: nat)
    requires
        n <= entries.len(),
    ensures
        passing(entries, |e: InteractiveEntityEntry| true, n) == entries.take(n as int),
    decreases n,
{
    if n > 0 {
        lemma_passing_all(entries, (n - 1) as nat);
        assert(entries.take(n as int) =~= entries.take(n - 1).push(entries[n - 1]));
    } else {
        assert(entries.take(0) =~= Seq::<InteractiveEntityEntry>::empty());
    }
}

/// The test of standing on a tile.
spec fn on(c: EntityCoordinates) -> spec_fn(InteractiveEntityEntry) -> bool {
    |e: InteractiveEntityEntry| e.coordinates == c
}

proof fn lemma_passing_joined(
    a: Seq<InteractiveEntityEntry>,
    b: Seq<InteractiveEntityEntry>,
    test: spec_fn(InteractiveEntityEntry) -> bool,
    n: nat,
)
    requires
        n <= b.len(),
    ensures
        passing(a + b, test, a.len() + n) == passing(a, test, a.len()) + passing(b, test, n),
    decreases n,
{
    if n == 0 {
        lemma_passing_prefix(a, b, test, a.len());
        assert(passing(b, test, 0) =~= Seq::<InteractiveEntityEntry>::empty());
        assert(passing(a, test, a.len()) + passing(b, test, 0) =~= passing(a, test, a.len()));
    } else {
        lemma_passing_joined(a, b, test, (n - 1) as nat);
        assert((a + b)[a.len() + n - 1] == b[n - 1]);
        let head = passing(a, test, a.len());
        let tail = passing(b, test, (n - 1) as nat);
        assert(head + tail.push(b[n - 1]) =~= (head + tail).push(b[n - 1]));
    }
}

proof fn lemma_passing_prefix(
    a: Seq<InteractiveEntityEntry>,
    b: Seq<InteractiveEntityEntry>,
    test: spec_fn(InteractiveEntityEntry) -> bool,
    n: nat,
)
    requires
        n <= a.len(),
    ensures
        passing(a + b, test, n) == passing(a, test, n),
    decreases n,
{
    if n > 0 {
        lemma_passing_prefix(a, b, test, (n - 1) as nat);
        assert((a + b)[n - 1] == a[n - 1]);
    }
}

/// Of the entries of one tile all or none stand on a tile.
proof fn lemma_passing_on(
    entries: Seq<InteractiveEntityEntry>,
    k: EntityCoordinates,
    c: EntityCoordinates,
    n: nat,
)
    requires
        n <= entries.len(),
        forall|i: int| 0 <= i < entries.len() ==> (#[trigger] entries[i]).coordinates == k,
    ensures
        passing(entries, on(c), n) == if k == c {
            entries.take(n as int)
        } else {
            Seq::<InteractiveEntityEntry>::empty()
        },
    decreases n,
{
    if n > 0 {
        lemma_passing_on(entries, k, c, (n - 1) as nat);
        assert(entries[n - 1].coordinates == k);
        assert(entries.take(n as int) =~= entries.take(n - 1).push(entries[n - 1]));
    } else {
        assert(entries.take(0) =~= Seq::<InteractiveEntityEntry>::empty());
    }
}

/// The listed entries that stand on a tile are those of the tile.
proof fn lemma_found_on_tile(map: InteractiveEntityMap, c: EntityCoordinates, n: nat)
    requires
        map.wf(),
        n <= map.tiles_in_order().len(),
    ensures
        ({
            let all = map.found_on(|e: InteractiveEntityEntry| true, n);
            passing(all, on(c), all.len()) == if map.tiles_in_order().take(n as int).contains(c) {
                map.at(c)
            } else {
                Seq::<InteractiveEntityEntry>::empty()
            }
        }),
    decreases n,
{
    map.entries_stand_on_their_tiles();
    let keys = map.tiles_in_order();
    let test = |e: InteractiveEntityEntry| true;
    if n > 0 {
        lemma_found_on_tile(map, c, (n - 1) as nat);
        let k = keys[n - 1];
        let before = map.found_on(test, (n - 1) as nat);
        let entries = map.at(k);
        lemma_passing_all(entries, entries.len());
        assert(entries.take(entries.len() as int) =~= entries);
        assert(map.found_on(test, n) == before + entries);
        lemma_passing_joined(before, entries, on(c), entries.len());
        lemma_passing_on(entries, k, c, entries.len());
        let fewer = keys.take(n - 1);
        let more = keys.take(n as int);
        assert(more[n - 1] == k);
        if fewer.contains(c) {
            let i = choose|i: int| 0 <= i < fewer.len() && fewer[i] == c;
            assert(more[i] == c);
            assert(keys[i] == c && keys[n - 1] == k);
            assert(c != k);
            assert(map.at(c) + Seq::<InteractiveEntityEntry>::empty() =~= map.at(c));
        } else if k == c {
            assert(Seq::<InteractiveEntityEntry>::empty() + entries =~= entries);
        } else {
            assert(!more.contains(c)) by {
                if more.contains(c) {
                    let i = choose|i: int| 0 <= i < more.len() && more[i] == c;
                    assert(fewer[i] == c);
                }
            }
            assert(Seq::<InteractiveEntityEntry>::empty() + Seq::<InteractiveEntityEntry>::empty()
                =~= Seq::<InteractiveEntityEntry>::empty());
        }
    }
}

/// Records and the entries they tell of stand on the same tiles.
proof fn lemma_records_on_tile(
    records: Seq<EntityRecord>,
    entries: Seq<InteractiveEntityEntry>,
    c: EntityCoordinates,
    n: nat,
)
    requires
        tell_all(records, entries),
        n <= records.len(),
    ensures
        tell_all(records_at(records, c, n), passing(entries, on(c), n)),
    decreases n,
{
    if n > 0 {
        lemma_records_on_tile(records, entries, c, (n - 1) as nat);
        assert(records[n - 1].tells(entries[n - 1]));
    }
}

/// Whether two entries differ in nothing but who is docked.
pub open spec fn same_entry(a: InteractiveEntityEntry, b: InteractiveEntityEntry) -> bool {
    &&& a.entity_type == b.entity_type
    &&& a.coordinates == b.coordinates
    &&& a.entity.kind() == b.entity.kind()
    &&& a.entity.place() == b.entity.place()
    &&& a.entity.used() == b.entity.used()
    &&& a.entity.prop_map() == b.entity.prop_map()
    &&& match (a.entity, b.entity) {
        (InteractiveEntity::Charger(x), InteractiveEntity::Charger(y)) => x.edge() == y.edge()
            && x.energy() == y.energy() && x.limit() == y.limit(),
        (InteractiveEntity::PartsDepot(x), InteractiveEntity::PartsDepot(y)) => x.edge()
            == y.edge(),
        _ => false,
    }
}

/// What is saved comes back: every tile has its entities again, in their order, each as it
/// was but for who is docked.
pub proof fn saved_entities_come_back(
    map: InteractiveEntityMap,
    records: Seq<EntityRecord>,
    back: InteractiveEntityMap,
    c: EntityCoordinates,
)
    requires
        map.wf(),
        tell_all(records, map.found(|e: InteractiveEntityEntry| true)),
        tell_all(records_at(records, c, records.len()), back.at(c)),
    ensures
        back.at(c).len() == map.at(c).len(),
        forall|i: int|
            0 <= i < map.at(c).len() ==> same_entry(#[trigger] map.at(c)[i], back.at(c)[i]),
{
    let n = map.tiles_in_order().len();
    let all = map.found(|e: InteractiveEntityEntry| true);
    lemma_found_on_tile(map, c, n);
    assert(map.tiles_in_order().take(n as int) =~= map.tiles_in_order());
    map.entries_stand_on_their_tiles();
    assert(passing(all, on(c), all.len()) == map.at(c)) by {
        if !map.tiles_in_order().contains(c) {
            assert(map.at(c).len() == 0);
            assert(map.at(c) =~= Seq::<InteractiveEntityEntry>::empty());
        }
    }
    lemma_records_on_tile(records, all, c, records.len());
    let told = records_at(records, c, records.len());
    assert forall|i: int| 0 <= i < map.at(c).len() implies same_entry(
        #[trigger] map.at(c)[i],
        back.at(c)[i],
    ) by {
        assert(told[i].tells(map.at(c)[i]));
        assert(told[i].tells(back.at(c)[i]));
    }
}

} // verus!
