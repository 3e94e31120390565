[package]
name = "lsm_kv"
version = "0.1.0"
edition = "2021"
publish = false

[dependencies]
crc32c = "0.6"
crc32fast = "1"
libc = "0.2"
lz4_flex = "0.11"
parking_lot = "0.12"
thiserror = "1"
xxhash-rust = { version = "0.8", features = ["xxh3"] }
