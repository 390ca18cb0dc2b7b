[package]
name = "gladius_planner"
version = "0.1.0"
edition = "2021"
publish = false

[dependencies]
geo = "*"
geo-clipper = "*"
bincode = "1"
serde = { version = "1", features = ["derive"] }
log = "*"
