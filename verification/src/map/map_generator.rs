//! Procedural single-chunk map generator (seeds → subseed rooms → union shell → door).
//!
//! Generation runs on a `MapDraft` intermediate grid. Each pipeline step mutates
//! that draft; `MapDraft::finish` is the only place where cells are written.

pub mod connector_laws;
pub mod corner_pillars;
pub mod draft;
pub mod entry_tile;
pub mod finish;
pub mod grid;
pub mod grid_fill;
pub mod house;
pub mod inner_doors_laws;
pub mod layout_laws;
pub mod pipeline;
pub mod slab_laws;
pub mod station_laws;
pub mod stations;
pub mod step_carpet;
pub mod step_chunk_connectors;
pub mod step_corners;
pub mod step_door;
pub mod step_home_crawler;
pub mod step_house_doors;
pub mod step_houses;
pub mod step_inner_doors;
pub mod step_inner_walls;
pub mod step_place_lamps;
pub mod step_ponds;
pub mod step_rooms;
pub mod step_seeds;
pub mod step_shell;
pub mod types;
pub mod union;

pub use corner_pillars::{detect_corner_pillars, CornerPillarPlacement, WallField};
pub use draft::MapDraft;
pub use grid_fill::{count_region_area, flood_fill_area};
pub use pipeline::{
    fill_procedural_chunk, generate_chunk_geometry, generate_house_tiles, HouseToolTiles,
    MIN_HOUSE_TOOL_SIDE,
};
pub use types::{
    ChunkRoadConnectors, GeneratedChunkMetadata, GeneratedHouse, HouseEntrypoint,
    MapGeneratorConfig, RoadConnector, BORDER_CLEARANCE, CHUNK_CONNECTOR_WIDTH_MAX,
    CHUNK_CONNECTOR_WIDTH_MIN, CHUNK_VOID_MARGIN, CONNECTORS_PER_SIDE_MAX, CONNECTORS_PER_SIDE_MIN,
    GENERATED_CHUNK_METADATA_VERSION, MIN_ROOM_AREA, MIN_ROOM_DIM, MIN_SEED_DISTANCE,
};
