[package]
name = "org_planner"
version = "0.1.0"
edition = "2021"
publish = false

[dependencies]
anyhow = "1"
chrono = "0.4"
notify = "*"
parking_lot = "*"
petgraph = "*"
serde = { version = "1", features = ["derive"] }
serde_json = "1"
walkdir = "2"
