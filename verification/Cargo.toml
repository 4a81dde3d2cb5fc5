[package]
name = "openclaw_cache"
version = "0.1.0"
edition = "2021"
publish = false

[dependencies]
lru = { version = "=0.18.5", default-features = false }
base64 = "*"
hex = "*"
ring = "*"
serde_json = "*"
simd-json = "*"
zstd = "*"
lz4 = "*"
blake3 = "*"
xxhash-rust = { version = "*", features = ["xxh3"] }
rayon = "*"
parking_lot = "*"
tracing-subscriber = { version = "*", features = ["env-filter"] }
pdf-extract = "*"
