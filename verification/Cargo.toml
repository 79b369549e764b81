[package]
name = "schedule1"
version = "0.1.0"
edition = "2021"
publish = false

[dependencies]
priority-queue = "*"
topological-sort = "*"
topset = "*"
bitflags = { version = "2", features = ["serde"] }
clap = { version = "4", features = ["derive"] }
rayon = "1"
indicatif = "*"
serde = { version = "1", features = ["derive"] }
serde_json = "1"
rmp-serde = "1"
savefile = "*"
savefile-derive = "*"
duckdb = "*"
