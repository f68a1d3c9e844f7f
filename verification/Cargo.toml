[package]
name = "beadgraph"
version = "0.1.0"
edition = "2021"
publish = false

[dependencies]
rustc-hash = "*"
serde = { version = "*", features = ["derive"] }
serde_json = "*"
wasm-bindgen = "*"
serde-wasm-bindgen = "*"
