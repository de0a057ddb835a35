//! Interactive entities: a sparse per-tile store of stateful gameplay objects that actors
//! can use, and the queues in front of them.
pub mod coordinates;
pub mod station_queues;
pub mod props;
pub mod kinds;
pub mod tile_list;
pub mod entity_map;
pub mod laws;
pub mod locators;
pub mod sync;
pub mod map_queues;
pub mod records;

pub use coordinates::EntityCoordinates;
pub use entity_map::{InteractiveEntityHypertileList, InteractiveEntityMap};
pub use kinds::{
    ChargerEntity, EntityType, InteractiveEntity, InteractiveEntityBehavior,
    InteractiveEntityEntry, PartsDepotEntity, CHARGER_DEFAULT_CAPACITY, PROP_IS_USED,
};
pub use locators::rendered_chunks_around;
pub use records::{EntityRecord, SavedKind};
pub use station_queues::ActorQueueState;
pub use sync::{sync_chargers_for_chunks, sync_parts_depots_for_chunks};
pub use tile_list::HypertileList;
