[package]
name = "vecvec"
version = "0.1.0"
edition = "2021"
publish = false

[dependencies]
clap = { version = "=4.6.7", features = ["derive"] }
crc32fast = "=1.5.4"
memmap2 = "=0.9.12"
parking_lot = "=0.12.5"
rayon = "=1.12.0"
rmp-serde = "=1.3.1"
roaring = "=0.11.5"
serde = { version = "=1.0.229", features = ["derive"] }
serde_json = "=1.0.154"
tar = { version = "0.4", default-features = false }
tempfile = "=3.27.0"
thiserror = "=2.0.21"
