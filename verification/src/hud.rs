//! The decisions behind the heads-up display: what is listed, coloured, shown and hidden.

pub mod actor_inspector;
pub mod game_hud;
pub mod game_log;
pub mod laws;
pub mod leaderboard;
pub mod overlays;
pub mod perf_timings;
pub mod subtile_debug;
