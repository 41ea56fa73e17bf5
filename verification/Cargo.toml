[package]
name = "hematite"
version = "0.1.0"
edition = "2021"
publish = false

[dependencies]
anyhow = "1"
clap = { version = "4", features = ["derive"] }
colored = "2"
indicatif = "0.17"
regex = "1"
reqwest = { version = "0.12", default-features = false, features = ["blocking"] }
semver = "1"
serde = { version = "1", features = ["derive"] }
serde_json = "1"
tempfile = "3"
walkdir = "2"
xxhash-rust = { version = "0.8", features = ["xxh64"] }
zip = { version = "0.6", default-features = false, features = ["deflate"] }
zstd = "0.13"
