[package]
name = "wax"
version = "0.1.0"
edition = "2021"
publish = false

[dependencies]
sha3 = { version = "=0.10.9", default-features = false }
wasm-encoder = { version = "=0.263.0", features = ["wasmparser"] }
wasmparser = "=0.263.0"
