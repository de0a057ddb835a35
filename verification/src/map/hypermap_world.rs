//! The world around the camera: which chunks are held, shown and rebuilt, and what of
//! each chunk is drawn.
pub mod chunk_cells;
pub mod loading;
pub mod mesh;
pub mod mesh_laws;
pub mod render_cells;
pub mod render_laws;
pub mod runtime;
pub mod streaming;
pub mod streaming_laws;
