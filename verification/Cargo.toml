[package]
name = "warp"
version = "0.1.0"
edition = "2021"
publish = false

[dependencies]
dunce = "1"
pathfinder_geometry = "0.5"
schemars = "0.8"
serde = { version = "1", features = ["derive"] }
serde_json = "1"
