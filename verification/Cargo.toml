[package]
name = "tiger_cache"
version = "0.1.0"
edition = "2021"
publish = false

[dependencies]
levenshtein = "*"
serde = { version = "*", features = ["derive"] }
serde_json = "*"
thiserror = "*"
bytesize = "*"
parking_lot = "*"
crossbeam-channel = "*"
rusqlite = { version = "*", features = ["bundled"] }
sled = "*"
