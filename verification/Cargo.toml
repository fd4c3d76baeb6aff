[package]
name = "consciousness_sim"
version = "0.1.0"
edition = "2021"
publish = false

[dependencies]
serde_json = "1"
napi = "2"
napi-derive = "2"
