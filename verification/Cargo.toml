[package]
name = "everly"
version = "0.1.0"
edition = "2021"
publish = false

[dependencies]
arc-swap = "1"
bevy = { version = "0.18", default-features = false, features = ["std", "bevy_asset", "bevy_color", "bevy_state", "bevy_text", "bevy_ui", "bevy_pbr"] }
pathfinding = "4"
rand = "0.8"
serde = { version = "1", features = ["derive"] }
serde_json = "1"
