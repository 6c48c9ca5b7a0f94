[package]
name = "tile_grid"
version = "0.1.0"
edition = "2021"
publish = false

[dependencies]
pathfinding = "=4.16.0"
hashbrown = "=0.14.5"
bevy = { version = "=0.12.1", default-features = false, features = ["multi-threaded"] }
futures-lite = "=2.6.1"
