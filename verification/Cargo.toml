[package]
name = "zydecodb-engine"
version = "0.1.0"
edition = "2021"
publish = false

[dependencies]
crc32fast = "1"
crossbeam = "0.8"
fail = "0.5"
prometheus = { version = "0.13", default-features = false }
serde = { version = "1", features = ["derive"] }
serde_json = "1"
sha2 = "0.10"
thiserror = "1"
tracing = "0.1"
xxhash-rust = { version = "0.8", features = ["xxh3"] }

[dev-dependencies]
tempfile = "3"
