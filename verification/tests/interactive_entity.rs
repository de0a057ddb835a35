//! Interactive entities and the queues in front of them. Energy is in thousandths, time in
//! milliseconds.
use everly::map::hypermap::{ChunkCoord, Hypermap};
use everly::map::interactive_entity::records::{EntityRecord, SavedKind};
use everly::map::interactive_entity::sync::sync_chargers_for_chunks;
use everly::map::interactive_entity::{
    ChargerEntity, EntityCoordinates, EntityType, InteractiveEntity, InteractiveEntityBehavior,
    InteractiveEntityMap, PartsDepotEntity, CHARGER_DEFAULT_CAPACITY,
};
use everly::map::world_map::{CellType, ChargerFacing};

fn charger_at(x: i32, y: i32, facing: ChargerFacing) -> InteractiveEntity {
    InteractiveEntity::Charger(ChargerEntity::new(EntityCoordinates::ground(x, y), facing))
}

#[test]
fn behavior_dispatches_through_enum() {
    let mut e = charger_at(3, 4, ChargerFacing::North);
    assert_eq!(e.entity_type(), EntityType::Charger);
    assert_eq!(e.coordinates(), EntityCoordinates::ground(3, 4));
    assert!(e.props().is_empty(), "no props by default");
    assert!(!e.is_used());

    e.change_prop("label", "dock-A");
    assert_eq!(e.get_prop("label").as_deref(), Some("dock-A"));
    assert_eq!(e.get_prop("missing"), None);
    assert_eq!(e.props().len(), 1);

    e.set_used(true);
    assert!(e.is_used());
}

#[test]
fn charger_occupancy_drives_is_used() {
    let mut charger = ChargerEntity::new(EntityCoordinates::ground(0, 0), ChargerFacing::East);
    assert!(!charger.is_used());
    charger.set_occupant(Some(u64::MAX));
    assert!(charger.is_used(), "docking an occupant marks the charger used");
    charger.set_occupant(None);
    assert!(!charger.is_used());
}

#[test]
fn charge_level_clamps_to_capacity() {
    let mut charger = ChargerEntity::new(EntityCoordinates::ground(0, 0), ChargerFacing::West);
    charger.set_charge_level(1_000_000);
    assert_eq!(charger.charge_level(), CHARGER_DEFAULT_CAPACITY);
    charger.set_charge_level(-5_000);
    assert_eq!(charger.charge_level(), 0);
}

#[test]
fn map_indexes_multiple_entities_per_tile() {
    let mut map = InteractiveEntityMap::new();
    let tile = EntityCoordinates::ground(10, 20);
    map.insert(charger_at(10, 20, ChargerFacing::North));
    map.insert(charger_at(10, 20, ChargerFacing::South));
    map.insert(charger_at(11, 20, ChargerFacing::East));

    assert_eq!(map.len(), 3);
    assert_eq!(map.occupied_tiles(), 2);
    assert_eq!(map.entities_at(tile).len(), 2);
    assert_eq!(map.entities_at(EntityCoordinates::ground(99, 99)).len(), 0);
}

#[test]
fn remove_drops_empty_tiles() {
    let mut map = InteractiveEntityMap::new();
    let tile = EntityCoordinates::ground(5, 5);
    map.insert(charger_at(5, 5, ChargerFacing::North));
    assert_eq!(map.remove_all_at(tile).len(), 1);
    assert!(map.list_at(tile).is_none());
    assert!(map.is_empty());
}

#[test]
fn remove_of_type_clears_only_matches() {
    let mut map = InteractiveEntityMap::new();
    let tile = EntityCoordinates::ground(1, 1);
    map.insert(charger_at(1, 1, ChargerFacing::North));
    map.insert(charger_at(1, 1, ChargerFacing::East));

    let removed = map.remove_of_type_at(tile, EntityType::Charger);
    assert_eq!(removed.len(), 2);
    assert!(map.list_at(tile).is_none(), "tile dropped once empty");
}

#[test]
fn radius_locator_is_circular_and_floor_scoped() {
    let mut map = InteractiveEntityMap::new();
    map.insert(charger_at(0, 0, ChargerFacing::North)); // center
    map.insert(charger_at(2, 0, ChargerFacing::North)); // dist 2
    map.insert(charger_at(2, 2, ChargerFacing::North)); // dist ~2.83 > 2
    // Same x/y as center but a different floor must be excluded.
    map.insert(InteractiveEntity::Charger(ChargerEntity::new(
        EntityCoordinates::new(0, 0, 1),
        ChargerFacing::North,
    )));

    let found = map.find_within_radius(EntityCoordinates::ground(0, 0), 2, None);
    assert_eq!(found.len(), 2, "only the two within radius 2 on floor 0");

    let only_center = map.find_within_radius(EntityCoordinates::ground(0, 0), 0, None);
    assert_eq!(only_center.len(), 1);
}

#[test]
fn rendered_chunk_locator_matches_render_footprint() {
    let mut map = InteractiveEntityMap::new();
    // Around world (0,0) the renderer keeps chunks (0,0), (-1,0), (0,-1).
    map.insert(charger_at(1, 1, ChargerFacing::North)); // chunk (0,0): in
    map.insert(charger_at(-1, 1, ChargerFacing::North)); // chunk (-1,0): in
    map.insert(charger_at(300, 300, ChargerFacing::North)); // far chunk: out

    let found = map.find_in_rendered_chunks(EntityCoordinates::ground(0, 0), None);
    assert_eq!(found.len(), 2);
}

#[test]
fn accessible_locator_uses_pathfinding_and_adjacency() {
    let mut passability: Hypermap<bool> = Hypermap::new(false);
    for x in 0..9 {
        passability.set(x, 0, true); // straight walkable corridor along y = 0
    }
    let mut map = InteractiveEntityMap::new();
    map.insert(charger_at(2, 0, ChargerFacing::North)); // dist 2: reachable directly
    map.insert(charger_at(4, 0, ChargerFacing::North)); // dist 4, neighbor (3,0) reachable
    map.insert(charger_at(7, 0, ChargerFacing::North)); // too far, no reachable neighbor

    let found = map.find_accessible_within(&passability, (0, 0), 0, 3, None);
    assert_eq!(found.len(), 2, "direct hit plus adjacency, far one excluded");
}

#[test]
fn wanting_and_waiting_queues_are_ordered_and_unique() {
    let mut map = InteractiveEntityMap::new();
    let coords = EntityCoordinates::ground(6, 6);
    let a = 10u64;
    let b = 11u64;

    map.add_wanting(coords, a);
    map.add_wanting(coords, a);
    map.add_wanting(coords, b);
    assert_eq!(map.wanting_queue(coords), vec![a, b], "wanting queue keeps insertion order");

    map.add_waiting(coords, b);
    assert_eq!(map.wanting_queue(coords), vec![a], "moving to waiting removes from wanting");
    assert_eq!(map.waiting_queue(coords), vec![b]);
    assert!(map.is_waiting_front(coords, b));

    map.add_waiting(coords, a);
    assert_eq!(map.waiting_queue(coords), vec![b, a]);
    assert_eq!(map.waiting_len(coords), 2);
    assert!(!map.is_waiting_front(coords, a));

    map.remove_waiting(coords, b);
    assert_eq!(map.waiting_queue(coords), vec![a]);
    assert!(map.is_waiting_front(coords, a));
}

#[test]
fn evict_everywhere_clears_queues_and_releases_charger() {
    let mut map = InteractiveEntityMap::new();
    let station_a = EntityCoordinates::ground(3, 3);
    let station_b = EntityCoordinates::ground(7, 7);
    let bot = 100u64;
    let other = 101u64;

    // Bot occupies charger A and is queued (waiting at A, wanting at B);
    // another bot shares those queues and must be left untouched.
    let mut charger = ChargerEntity::new(station_a, ChargerFacing::North);
    charger.set_occupant(Some(bot));
    map.insert(InteractiveEntity::Charger(charger));
    map.add_waiting(station_a, bot);
    map.add_waiting(station_a, other);
    map.add_wanting(station_b, bot);

    assert!(map.evict_actor_everywhere(bot));

    assert_eq!(map.waiting_queue(station_a), vec![other], "only the evicted bot leaves");
    assert_eq!(map.wanting_queue(station_b), Vec::<u64>::new(), "wanting slot freed and pruned");
    let charger = map.entities_at(station_a)[0].entity.as_charger().unwrap();
    assert_eq!(charger.occupant(), None, "charger released");
    assert!(!charger.is_used());

    assert!(!map.evict_actor_everywhere(bot), "second eviction is a no-op");
}

#[test]
fn is_in_any_queue_tracks_membership_across_operations() {
    let mut map = InteractiveEntityMap::new();
    let a = EntityCoordinates::ground(1, 1);
    let b = EntityCoordinates::ground(9, 9);
    let bot = 7u64;

    assert!(!map.is_in_any_queue(bot), "unknown bot is in no queue");

    // Wanting at one station, and moved to waiting (same station): the
    // promotion moves the membership, it does not double-count.
    map.add_wanting(a, bot);
    assert!(map.is_in_any_queue(bot));
    map.add_waiting(a, bot);
    assert!(map.is_in_any_queue(bot));
    map.remove_waiting(a, bot);
    assert!(!map.is_in_any_queue(bot), "leaving the only queue clears membership");

    // Membership across two distinct stations: must survive until *both* drop.
    map.add_wanting(a, bot);
    map.add_waiting(b, bot);
    assert!(map.is_in_any_queue(bot));
    map.remove_actor_from_queues(a, bot);
    assert!(map.is_in_any_queue(bot), "still waiting at the other station");
    map.clear_queues_at(b);
    assert!(!map.is_in_any_queue(bot), "clearing the last station clears membership");

    // Eviction wipes every membership at once.
    map.add_wanting(a, bot);
    map.add_waiting(b, bot);
    assert!(map.is_in_any_queue(bot));
    map.evict_actor_everywhere(bot);
    assert!(!map.is_in_any_queue(bot), "eviction drops the index entry");
}

#[test]
fn stale_queue_membership_is_collected_after_ttl() {
    let mut map = InteractiveEntityMap::new();
    let station = EntityCoordinates::ground(4, 4);
    let pursuing = 1u64;
    let abandoned = 2u64;
    let ttl = 2_000;

    map.add_waiting(station, pursuing);
    map.add_waiting(station, abandoned);

    let mut stale = Vec::new();
    // One bot keeps re-asserting its slot; the other goes silent.
    for _ in 0..200 {
        map.refresh_queue(pursuing);
        stale.clear();
        map.collect_stale_queued(16, ttl, &mut stale);
        if !stale.is_empty() {
            break;
        }
    }
    assert_eq!(stale, vec![abandoned], "only the silent bot ages out");

    // Evicting the stale bot drops its idle timer; the pursuer survives.
    map.evict_actor_everywhere(abandoned);
    assert!(map.is_in_any_queue(pursuing));
    assert!(!map.is_in_any_queue(abandoned));

    // After eviction the pursuer (still refreshed) never goes stale.
    let mut stale2 = Vec::new();
    map.refresh_queue(pursuing);
    map.collect_stale_queued(16, ttl, &mut stale2);
    assert!(stale2.is_empty(), "refreshed survivor is not collected");
}

#[test]
fn queue_cleanup_drops_empty_entries() {
    let mut map = InteractiveEntityMap::new();
    let coords = EntityCoordinates::ground(8, 2);
    let actor = 42u64;

    map.add_wanting(coords, actor);
    map.remove_wanting(coords, actor);
    assert_eq!(map.wanting_queue(coords), Vec::<u64>::new());

    map.add_waiting(coords, actor);
    map.remove_actor_from_queues(coords, actor);
    assert_eq!(map.waiting_queue(coords), Vec::<u64>::new());
}

#[test]
fn clearing_forgets_entities_and_queues() {
    let mut map = InteractiveEntityMap::new();
    map.insert(charger_at(1, 2, ChargerFacing::East));
    map.add_waiting(EntityCoordinates::ground(1, 2), 5);
    assert_eq!(map.iter().len(), 1);
    map.clear();
    assert!(map.is_empty());
    assert_eq!(map.iter().len(), 0);
    assert!(!map.is_in_any_queue(5));
}

#[test]
fn entries_stand_where_they_were_put() {
    let mut map = InteractiveEntityMap::new();
    map.insert(charger_at(-7, 130, ChargerFacing::West));
    let entry = map.iter()[0];
    assert_eq!(entry.coordinates, EntityCoordinates::ground(-7, 130));
    assert_eq!(entry.entity_type, EntityType::Charger);
    assert_eq!(entry.entity.as_charger().unwrap().facing(), ChargerFacing::West);
    assert!(entry.entity.as_parts_depot().is_none());
}

#[test]
fn saved_entities_come_back_with_nobody_docked() {
    let mut map = InteractiveEntityMap::new();
    let mut charger = ChargerEntity::new(EntityCoordinates::ground(2, 3), ChargerFacing::South);
    charger.set_charge_level(42_000);
    charger.change_prop("label", "dock-7");
    charger.set_occupant(Some(9));
    map.insert(InteractiveEntity::Charger(charger));
    map.insert(charger_at(5, 5, ChargerFacing::East));
    map.insert(InteractiveEntity::PartsDepot(PartsDepotEntity::new(
        EntityCoordinates::ground(2, 3),
        ChargerFacing::North,
    )));

    let records = map.to_records();
    assert_eq!(records.len(), 3);
    let restored = InteractiveEntityMap::from_records(&records);

    assert_eq!(restored.len(), 3);
    let entries = restored.entities_at(EntityCoordinates::ground(2, 3));
    assert_eq!(entries.len(), 2);
    assert_eq!(entries[0].entity_type, EntityType::Charger);
    let charger = entries[0].entity.as_charger().expect("charger");
    assert_eq!(charger.charge_level(), 42_000);
    assert_eq!(charger.capacity(), CHARGER_DEFAULT_CAPACITY);
    assert_eq!(charger.facing(), ChargerFacing::South);
    assert_eq!(charger.get_prop("label").as_deref(), Some("dock-7"));
    assert_eq!(charger.occupant(), None);
    assert!(charger.is_used());
    assert_eq!(entries[1].entity.as_parts_depot().unwrap().facing(), ChargerFacing::North);
}

#[test]
fn using_or_labelling_an_entity_keeps_the_rest() {
    let mut charger = ChargerEntity::new(EntityCoordinates::ground(1, 1), ChargerFacing::East);
    charger.set_charge_level(7_000);
    charger.set_occupant(Some(4));
    let mut entity = InteractiveEntity::Charger(charger);
    entity.set_used(false);
    entity.change_prop("label", "a");
    let charger = entity.as_charger().unwrap();
    assert_eq!((charger.charge_level(), charger.capacity()), (7_000, CHARGER_DEFAULT_CAPACITY));
    assert_eq!((charger.occupant(), charger.facing()), (Some(4), ChargerFacing::East));
    assert!(!charger.is_used());
}

#[test]
fn a_charger_beyond_its_capacity_can_be_set() {
    let place = EntityCoordinates::ground(0, 0);
    let record = EntityRecord {
        entity_type: EntityType::Charger,
        coordinates: place,
        kind: SavedKind::Charger { charge_level: 9_000, capacity: 5_000 },
        place,
        facing: ChargerFacing::North,
        is_used: false,
        props: Vec::new(),
    };
    let mut entry = record.restore();
    let charger = entry.entity.as_charger_mut().unwrap();
    assert_eq!(charger.charge_level(), 9_000);
    charger.set_charge_level(6_000);
    assert_eq!(charger.charge_level(), 5_000);
}

#[test]
fn rebuilding_stations_keeps_the_timers_of_others() {
    let facing = ChargerFacing::North;
    let mut world: Hypermap<CellType> = Hypermap::new(CellType::Road);
    world.set(3, 3, CellType::Charger(facing));
    world.set(200, 3, CellType::Charger(facing));
    let (near, far) = (EntityCoordinates::ground(3, 3), EntityCoordinates::ground(200, 3));
    let chunks = vec![ChunkCoord::new(0, 0), ChunkCoord::new(1, 0)];
    let mut map = InteractiveEntityMap::new();
    sync_chargers_for_chunks(&world, &mut map, &chunks);
    assert_eq!(map.len(), 2);
    map.add_waiting(near, 1);
    map.add_waiting(far, 2);
    let mut stale = Vec::new();
    map.collect_stale_queued(600, 1_000, &mut stale);
    assert!(stale.is_empty());

    sync_chargers_for_chunks(&world, &mut map, &vec![ChunkCoord::new(0, 0)]);
    assert_eq!(map.len(), 2);
    assert!(!map.is_in_any_queue(1), "the rebuilt charger has no queue");
    assert!(map.is_in_any_queue(2));
    map.add_waiting(near, 1);
    map.collect_stale_queued(600, 1_000, &mut stale);
    assert_eq!(stale, vec![2], "the timer of the other one ran on");
}
