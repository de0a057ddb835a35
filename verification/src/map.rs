//! World data: tile storage, search, generation and the level format.

pub mod cell_occupancy;
pub mod chunk_metadata;
pub mod chunk_overlay;
pub mod dirt;
pub mod dirt_overlay;
pub mod dirt_overlay_laws;
pub mod field_interactions;
pub mod floor_path;
pub mod ground_laws;
pub mod hypermap;
pub mod hypermap_pathfind;
pub mod hypermap_world;
pub mod interactive_entity;
pub mod level;
pub mod level_files;
pub mod level_laws;
pub mod line_of_sight;
pub mod line_of_sight_laws;
pub mod map_generator;
pub mod neighborhood;
pub mod overlay_laws;
pub mod passability;
pub mod search;
pub mod sight_laws;
pub mod tile_graph;
pub mod town_laws;
pub mod waypoint_laws;
pub mod world_map;
pub mod world_map_floor;
