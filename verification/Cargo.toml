[package]
name = "cairn"
version = "0.1.0"
edition = "2021"
publish = false

[dependencies]
async-trait = "0.1"
crc32fast = "1"
tokio = { version = "1", features = ["io-util", "macros", "net", "rt", "sync", "time"] }

[dev-dependencies]
bincode = "1.3"
