[package]
name = "lsm_forest"
version = "0.1.0"
edition = "2021"
publish = false

[dependencies]
bincode = "2"
crc32fast = "1"
bloomfilter = "1"
lru = "0.12"

[dev-dependencies]
rand = "0.8"
