[package]
name = "kaizen"
version = "0.1.0"
edition = "2021"
publish = false

[dependencies]
anyhow = "1"
arrow = { version = "*", default-features = false }
blake3 = "1"
caseless = "*"
crc32fast = "1"
memmap2 = "*"
parquet = { version = "*", default-features = false, features = ["arrow", "zstd"] }
rand = "*"
redb = "*"
regex = "1"
rkyv = "0.8"
rusqlite = { version = "*", features = ["bundled"] }
serde = { version = "1", features = ["derive"] }
serde_json = "1"
time = { version = "0.3", features = ["formatting"] }
tracing = "0.1"
