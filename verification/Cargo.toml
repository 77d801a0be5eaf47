[package]
name = "spacemap"
version = "0.1.0"
edition = "2021"
publish = false

[dependencies]
blake3 = "*"
rayon = "*"
clap = { version = "*", features = ["derive"] }
walkdir = "*"
jwalk = "*"
parking_lot = "*"
serde = { version = "*", features = ["derive"] }
serde_json = "*"
toml = "*"
dirs = "*"
bincode = "*"
humansize = "*"
colored = "*"
indicatif = "*"
sysinfo = "*"
