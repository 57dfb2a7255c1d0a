[package]
name = "bracket_lut"
version = "0.1.0"
edition = "2021"
publish = false

[dependencies]
phf_shared = "0.11"
rand = { version = "0.8", features = ["small_rng"] }
rsonpath-syntax = "*"
serde = { version = "1", features = ["derive"] }
serde_cbor = "0.11"
serde_json = "1"
stats_alloc = "0.1"
