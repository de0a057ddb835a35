//! Everly: the verified core of a chunked tile-world sandbox.
//!
//! The library holds the rules of the game that do not depend on a renderer:
//! the chunked tile store, path search, procedural layout, level text format,
//! entity queues and the decisions behind the heads-up display. Everything that
//! draws, reads files or talks to a window lives in the application around it.

pub mod flood;
pub mod heap;
pub mod hud;
pub mod map;
pub mod reach;
pub mod rng;
pub mod table;
pub mod text;
