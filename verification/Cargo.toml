[package]
name = "adventure_encounters"
version = "0.1.0"
edition = "2021"
publish = false

[dependencies]
bevy = { version = "0.10", default-features = false }
bevy_ecs_tilemap = { version = "0.10", default-features = false }
bracket-geometry = "0.8"
bracket-pathfinding = "0.8"
bracket-random = "0.8"
ron = "0.8"
serde = { version = "1", features = ["derive"] }
