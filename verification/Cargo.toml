[package]
name = "zstd_finder"
version = "0.1.0"
edition = "2021"
publish = false

[dependencies]
zstd = "0.13"
xxhash-rust = { version = "0.8", features = ["xxh3"] }
serde = { version = "1", features = ["derive"] }
serde_json = "1"
thiserror = "1"
clap = { version = "4", features = ["derive"] }
walkdir = "2"
tempfile = "3"
filetime = "0.2"
