[package]
name = "region"
version = "0.1.0"
edition = "2021"
publish = false

[dependencies]
clap = { version = "4", features = ["derive"] }
flate2 = "1"
lz4_flex = "0.11"
walkdir = "2"
xxhash-rust = { version = "0.8", features = ["xxh32", "xxh64"] }
zstd = "0.13"
