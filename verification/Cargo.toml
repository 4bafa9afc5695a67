[package]
name = "scon"
version = "0.1.0"
edition = "2021"

[dependencies]
ahash = "=0.8.12"
bumpalo = "=3.20.3"
compact_str = "=0.8.2"
indexmap = "=2.14.2"
itoa = "=1.0.18"
memchr = "=2.8.3"
ryu = "=1.0.23"
serde_json = { version = "=1.0.154", features = ["float_roundtrip"] }
xxhash-rust = { version = "=0.8.19", features = ["xxh3"] }
