[package]
name = "rust_kv"
version = "0.1.0"
edition = "2021"
publish = false

[dependencies]
deepsize = "0.2"
itertools = "0.11"
napi = { version = "2", features = ["napi6"] }
napi-derive = "2"
rusqlite = { version = "0.29", features = ["bundled"] }
