[package]
name = "cache-key-normalizer"
version = "0.1.0"
edition = "2021"
publish = false

[dependencies]
proxy-wasm = "0.2"
serde = { version = "1", features = ["derive"] }
serde-json-wasm = "1"
