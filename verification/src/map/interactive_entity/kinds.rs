//! The kinds of interactive entities and what they have in common.
use vstd::prelude::*;

use crate::map::interactive_entity::coordinates::EntityCoordinates;
use crate::map::interactive_entity::props::{keys_differ, pairs_map, Props};
use crate::map::world_map::ChargerFacing;

verus! {

/// Name of the "in use" (occupied/active) property. Stored as a typed field on each
/// entity, *not* among the free-form props, but the name documents the well-known
/// concept across kinds.
pub const PROP_IS_USED: &'static str = "is_used";

/// Default energy capacity for a freshly placed [`ChargerEntity`], in thousandths.
pub const CHARGER_DEFAULT_CAPACITY: i64 = 100_000;

/// Discriminant for [`InteractiveEntity`] kinds. Cheap to copy and store next to
/// an entity in an [`InteractiveEntityEntry`] for filtering without inspecting
/// the entity payload.
#[derive(Debug, Clone, Copy, PartialEq, Eq, Structural, Hash)]
pub enum EntityType {
    Charger,
    PartsDepot,
}

/// Shared interface every interactive entity exposes.
///
/// Implemented on the [`InteractiveEntity`] enum (dispatching to the active
/// variant) and on each concrete kind, so code can treat any entity uniformly:
/// query its identity, read/write free-form string props, and toggle the
/// well-known `is_used` flag.
pub trait InteractiveEntityBehavior {
    spec fn kind(&self) -> EntityType;

    spec fn place(&self) -> EntityCoordinates;

    spec fn used(&self) -> bool;

    spec fn prop_map(&self) -> Map<Seq<char>, Seq<char>>;

    /// Kind discriminant.
    fn entity_type(&self) -> (kind: EntityType)
        ensures
            kind == self.kind(),
    ;

    /// World location (never changes after placement).
    fn coordinates(&self) -> (place: EntityCoordinates)
        ensures
            place == self.place(),
    ;

    /// Free-form properties as a list of pairs, no key twice. **Empty** when the
    /// entity has no custom properties set. Returns an owned copy.
    fn props(&self) -> (pairs: Vec<(String, String)>)
        ensures
            keys_differ(pairs@),
            pairs_map(pairs@) == self.prop_map(),
    ;

    /// The special "in use" flag (occupied / active).
    fn is_used(&self) -> (used: bool)
        ensures
            used == self.used(),
    ;

    /// Sets the special "in use" flag.
    fn set_used(&mut self, used: bool)
        ensures
            final(self).used() == used,
            final(self).kind() == old(self).kind(),
            final(self).place() == old(self).place(),
            final(self).prop_map() == old(self).prop_map(),
    ;

    /// Inserts or overwrites a free-form property.
    fn change_prop(&mut self, key: &str, value: &str)
        ensures
            final(self).prop_map() == old(self).prop_map().insert(key@, value@),
            final(self).kind() == old(self).kind(),
            final(self).place() == old(self).place(),
            final(self).used() == old(self).used(),
    ;

    /// Reads a free-form property, or `None` if unset.
    fn get_prop(&self, key: &str) -> (value: Option<String>)
        ensures
            match value {
                Some(v) => self.prop_map().contains_key(key@) && v@ == self.prop_map()[key@],
                None => !self.prop_map().contains_key(key@),
            },
    ;
}

/// A charging station instance: the runtime, stateful counterpart of a charger tile.
#[derive(Debug)]
pub struct ChargerEntity {
    pub(crate) coordinates: EntityCoordinates,
    pub(crate) facing: ChargerFacing,
    pub(crate) charge_level: i64,
    pub(crate) capacity: i64,
    pub(crate) occupant: Option<u64>,
    pub(crate) is_used: bool,
    pub(crate) props: Props,
}

impl ChargerEntity {
    /// The edge that the charger backs onto.
    pub closed spec fn edge(self) -> ChargerFacing {
        self.facing
    }

    /// Stored energy in thousandths.
    pub closed spec fn energy(self) -> int {
        self.charge_level as int
    }

    /// Most energy that can be stored, in thousandths.
    pub closed spec fn limit(self) -> int {
        self.capacity as int
    }

    /// The actor that is docked.
    pub closed spec fn docked(self) -> Option<u64> {
        self.occupant
    }

    /// The energy is neither negative nor beyond the limit.
    pub open spec fn wf(self) -> bool {
        0 <= self.energy() <= self.limit()
    }

    /// New, empty charger at `coordinates` backing onto `facing`.
    pub fn new(coordinates: EntityCoordinates, facing: ChargerFacing) -> (charger: Self)
        ensures
            charger.place() == coordinates,
            charger.edge() == facing,
            charger.energy() == 0,
            charger.limit() == 100_000,
            charger.docked() is None,
            !charger.used(),
            charger.prop_map() == Map::<Seq<char>, Seq<char>>::empty(),
            charger.wf(),
    {
        ChargerEntity {
            coordinates,
            facing,
            charge_level: 0,
            capacity: CHARGER_DEFAULT_CAPACITY,
            occupant: None,
            is_used: false,
            props: Props::new(),
        }
    }

    /// A charger as it was saved: nobody is docked.
    pub(crate) fn saved(
        coordinates: EntityCoordinates,
        facing: ChargerFacing,
        charge_level: i64,
        capacity: i64,
        is_used: bool,
        pairs: &Vec<(String, String)>,
    ) -> (charger: Self)
        ensures
            charger.place() == coordinates,
            charger.edge() == facing,
            charger.energy() == charge_level,
            charger.limit() == capacity,
            charger.docked() is None,
            charger.used() == is_used,
            charger.prop_map() == pairs_map(pairs@),
    {
        ChargerEntity {
            coordinates,
            facing,
            charge_level,
            capacity,
            occupant: None,
            is_used,
            props: Props::from_pairs(pairs),
        }
    }

    pub fn facing(&self) -> (facing: ChargerFacing)
        ensures
            facing == self.edge(),
    {
        self.facing
    }

    pub fn charge_level(&self) -> (level: i64)
        ensures
            level == self.energy(),
    {
        self.charge_level
    }

    pub fn capacity(&self) -> (capacity: i64)
        ensures
            capacity == self.limit(),
    {
        self.capacity
    }

    /// Whether nothing but the energy, the docked actor and the "in use" flag may differ.
    pub open spec fn same_station(self, before: Self) -> bool {
        &&& self.place() == before.place()
        &&& self.edge() == before.edge()
        &&& self.limit() == before.limit()
        &&& self.prop_map() == before.prop_map()
    }

    /// Sets the charge level, clamped to `0..=capacity`.
    pub fn set_charge_level(&mut self, value: i64)
        requires
            0 <= old(self).limit(),
        ensures
            final(self).wf(),
            final(self).energy() == if value < 0 {
                0
            } else if value > old(self).limit() {
                old(self).limit()
            } else {
                value as int
            },
            final(self).same_station(*old(self)),
            final(self).docked() == old(self).docked(),
            final(self).used() == old(self).used(),
    {
        self.charge_level = if value < 0 {
            0
        } else if value > self.capacity {
            self.capacity
        } else {
            value
        };
    }

    pub fn occupant(&self) -> (occupant: Option<u64>)
        ensures
            occupant == self.docked(),
    {
        self.occupant
    }

    /// Docks (or undocks with `None`) an actor; also updates the "in use" flag.
    pub fn set_occupant(&mut self, occupant: Option<u64>)
        ensures
            final(self).docked() == occupant,
            final(self).used() == (occupant is Some),
            final(self).same_station(*old(self)),
            final(self).energy() == old(self).energy(),
    {
        self.occupant = occupant;
        self.is_used = occupant.is_some();
    }
}

impl InteractiveEntityBehavior for ChargerEntity {
    open spec fn kind(&self) -> EntityType {
        EntityType::Charger
    }

    closed spec fn place(&self) -> EntityCoordinates {
        self.coordinates
    }

    closed spec fn used(&self) -> bool {
        self.is_used
    }

    closed spec fn prop_map(&self) -> Map<Seq<char>, Seq<char>> {
        self.props@
    }

    fn entity_type(&self) -> (kind: EntityType) {
        EntityType::Charger
    }

    fn coordinates(&self) -> (place: EntityCoordinates) {
        self.coordinates
    }

    fn props(&self) -> (pairs: Vec<(String, String)>) {
        self.props.to_pairs()
    }

    fn is_used(&self) -> (used: bool) {
        self.is_used
    }

    fn set_used(&mut self, used: bool)
        ensures
            final(self).energy() == old(self).energy(),
            final(self).docked() == old(self).docked(),
            final(self).same_station(*old(self)),
    {
        self.is_used = used;
    }

    fn change_prop(&mut self, key: &str, value: &str)
        ensures
            final(self).energy() == old(self).energy(),
            final(self).limit() == old(self).limit(),
            final(self).docked() == old(self).docked(),
            final(self).edge() == old(self).edge(),
    {
        self.props.set(key, value);
    }

    fn get_prop(&self, key: &str) -> (value: Option<String>) {
        self.props.get(key)
    }
}

/// A parts depot instance: the runtime, stateful counterpart of a depot tile.
/// Interaction is immediate (no queue or docking wait).
#[derive(Debug)]
pub struct PartsDepotEntity {
    pub(crate) coordinates: EntityCoordinates,
    pub(crate) facing: ChargerFacing,
    pub(crate) is_used: bool,
    pub(crate) props: Props,
}

impl PartsDepotEntity {
    /// The edge that the depot backs onto.
    pub closed spec fn edge(self) -> ChargerFacing {
        self.facing
    }

    pub fn new(coordinates: EntityCoordinates, facing: ChargerFacing) -> (depot: Self)
        ensures
            depot.place() == coordinates,
            depot.edge() == facing,
            !depot.used(),
            depot.prop_map() == Map::<Seq<char>, Seq<char>>::empty(),
    {
        PartsDepotEntity { coordinates, facing, is_used: false, props: Props::new() }
    }

    /// A depot as it was saved.
    pub(crate) fn saved(
        coordinates: EntityCoordinates,
        facing: ChargerFacing,
        is_used: bool,
        pairs: &Vec<(String, String)>,
    ) -> (depot: Self)
        ensures
            depot.place() == coordinates,
            depot.edge() == facing,
            depot.used() == is_used,
            depot.prop_map() == pairs_map(pairs@),
    {
        PartsDepotEntity { coordinates, facing, is_used, props: Props::from_pairs(pairs) }
    }

    pub fn facing(&self) -> (facing: ChargerFacing)
        ensures
            facing == self.edge(),
    {
        self.facing
    }
}

impl InteractiveEntityBehavior for PartsDepotEntity {
    open spec fn kind(&self) -> EntityType {
        EntityType::PartsDepot
    }

    closed spec fn place(&self) -> EntityCoordinates {
        self.coordinates
    }

    closed spec fn used(&self) -> bool {
        self.is_used
    }

    closed spec fn prop_map(&self) -> Map<Seq<char>, Seq<char>> {
        self.props@
    }

    fn entity_type(&self) -> (kind: EntityType) {
        EntityType::PartsDepot
    }

    fn coordinates(&self) -> (place: EntityCoordinates) {
        self.coordinates
    }

    fn props(&self) -> (pairs: Vec<(String, String)>) {
        self.props.to_pairs()
    }

    fn is_used(&self) -> (used: bool) {
        self.is_used
    }

    fn set_used(&mut self, used: bool)
        ensures
            final(self).edge() == old(self).edge(),
    {
        self.is_used = used;
    }

    fn change_prop(&mut self, key: &str, value: &str)
        ensures
            final(self).edge() == old(self).edge(),
    {
        self.props.set(key, value);
    }

    fn get_prop(&self, key: &str) -> (value: Option<String>) {
        self.props.get(key)
    }
}

/// Every interactive entity kind. The [`InteractiveEntityBehavior`] impl dispatches to the
/// active variant, so callers rarely need to match.
#[derive(Debug)]
pub enum InteractiveEntity {
    Charger(ChargerEntity),
    PartsDepot(PartsDepotEntity),
}

impl InteractiveEntity {
    /// Whether what only its kind has is as before: a charger's energy, limit, docked actor and
    /// edge, or a depot's edge.
    pub open spec fn same_inside(self, before: Self) -> bool {
        match (self, before) {
            (InteractiveEntity::Charger(a), InteractiveEntity::Charger(b)) => {
                &&& a.energy() == b.energy()
                &&& a.limit() == b.limit()
                &&& a.docked() == b.docked()
                &&& a.edge() == b.edge()
            },
            (InteractiveEntity::PartsDepot(a), InteractiveEntity::PartsDepot(b)) => a.edge()
                == b.edge(),
            _ => false,
        }
    }

    /// Borrow as a [`ChargerEntity`] if that is the active kind.
    pub fn as_charger(&self) -> (charger: Option<&ChargerEntity>)
        ensures
            match charger {
                Some(c) => *self == InteractiveEntity::Charger(*c),
                None => self !is Charger,
            },
    {
        match self {
            InteractiveEntity::Charger(c) => Some(c),
            _ => None,
        }
    }

    /// Borrow as a [`PartsDepotEntity`] if that is the active kind.
    pub fn as_parts_depot(&self) -> (depot: Option<&PartsDepotEntity>)
        ensures
            match depot {
                Some(d) => *self == InteractiveEntity::PartsDepot(*d),
                None => self !is PartsDepot,
            },
    {
        match self {
            InteractiveEntity::PartsDepot(d) => Some(d),
            _ => None,
        }
    }

    /// Mutably borrow as a [`ChargerEntity`] if that is the active kind.
    pub fn as_charger_mut(&mut self) -> (charger: Option<&mut ChargerEntity>)
        ensures
            match charger {
                Some(c) => *old(self) == InteractiveEntity::Charger(*c) && *final(self)
                    == InteractiveEntity::Charger(*final(c)),
                None => *old(self) !is Charger && *final(self) == *old(self),
            },
    {
        match self {
            InteractiveEntity::Charger(c) => Some(c),
            _ => None,
        }
    }

    /// Mutably borrow as a [`PartsDepotEntity`] if that is the active kind.
    pub fn as_parts_depot_mut(&mut self) -> (depot: Option<&mut PartsDepotEntity>)
        ensures
            match depot {
                Some(d) => *old(self) == InteractiveEntity::PartsDepot(*d) && *final(self)
                    == InteractiveEntity::PartsDepot(*final(d)),
                None => *old(self) !is PartsDepot && *final(self) == *old(self),
            },
    {
        match self {
            InteractiveEntity::PartsDepot(d) => Some(d),
            _ => None,
        }
    }
}

impl InteractiveEntityBehavior for InteractiveEntity {
    open spec fn kind(&self) -> EntityType {
        match self {
            InteractiveEntity::Charger(c) => c.kind(),
            InteractiveEntity::PartsDepot(d) => d.kind(),
        }
    }

    open spec fn place(&self) -> EntityCoordinates {
        match self {
            InteractiveEntity::Charger(c) => c.place(),
            InteractiveEntity::PartsDepot(d) => d.place(),
        }
    }

    open spec fn used(&self) -> bool {
        match self {
            InteractiveEntity::Charger(c) => c.used(),
            InteractiveEntity::PartsDepot(d) => d.used(),
        }
    }

    open spec fn prop_map(&self) -> Map<Seq<char>, Seq<char>> {
        match self {
            InteractiveEntity::Charger(c) => c.prop_map(),
            InteractiveEntity::PartsDepot(d) => d.prop_map(),
        }
    }

    fn entity_type(&self) -> (kind: EntityType) {
        match self {
            InteractiveEntity::Charger(c) => c.entity_type(),
            InteractiveEntity::PartsDepot(d) => d.entity_type(),
        }
    }

    fn coordinates(&self) -> (place: EntityCoordinates) {
        match self {
            InteractiveEntity::Charger(c) => c.coordinates(),
            InteractiveEntity::PartsDepot(d) => d.coordinates(),
        }
    }

    fn props(&self) -> (pairs: Vec<(String, String)>) {
        match self {
            InteractiveEntity::Charger(c) => c.props(),
            InteractiveEntity::PartsDepot(d) => d.props(),
        }
    }

    fn is_used(&self) -> (used: bool) {
        match self {
            InteractiveEntity::Charger(c) => c.is_used(),
            InteractiveEntity::PartsDepot(d) => d.is_used(),
        }
    }

    fn set_used(&mut self, used: bool)
        ensures
            final(self).same_inside(*old(self)),
    {
        match self {
            InteractiveEntity::Charger(c) => c.set_used(used),
            InteractiveEntity::PartsDepot(d) => d.set_used(used),
        }
    }

    fn change_prop(&mut self, key: &str, value: &str)
        ensures
            final(self).same_inside(*old(self)),
    {
        match self {
            InteractiveEntity::Charger(c) => c.change_prop(key, value),
            InteractiveEntity::PartsDepot(d) => d.change_prop(key, value),
        }
    }

    fn get_prop(&self, key: &str) -> (value: Option<String>) {
        match self {
            InteractiveEntity::Charger(c) => c.get_prop(key),
            InteractiveEntity::PartsDepot(d) => d.get_prop(key),
        }
    }
}

/// One stored interactive entity plus its redundant `(type, coordinates)` tags.
/// The tags let queries filter by kind or location without unwrapping the
/// payload; they always agree with the entity (entities never move).
#[derive(Debug)]
pub struct InteractiveEntityEntry {
    pub entity_type: EntityType,
    pub coordinates: EntityCoordinates,
    pub entity: InteractiveEntity,
}

impl InteractiveEntityEntry {
    /// Whether the tags are those of the entity.
    pub open spec fn tagged(self) -> bool {
        self.entity_type == self.entity.kind() && self.coordinates == self.entity.place()
    }

    /// Builds an entry from an entity, deriving the redundant tags from it.
    pub fn new(entity: InteractiveEntity) -> (entry: Self)
        ensures
            entry.tagged(),
            entry.entity == entity,
    {
        InteractiveEntityEntry {
            entity_type: entity.entity_type(),
            coordinates: entity.coordinates(),
            entity,
        }
    }
}

} // verus!
