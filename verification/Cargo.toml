[package]
name = "cxpk"
version = "0.1.0"
edition = "2021"
publish = false

[dependencies]
image = "0.24"
png = "0.17"
rayon = "1"
serde = { version = "1", features = ["derive"] }
serde_json = "1"
toml = "0.8"
walkdir = "2"
xxhash-rust = { version = "0.8", features = ["xxh64"] }
