[package]
name = "walkmap"
version = "0.1.0"
edition = "2021"
publish = false

[dependencies]
bit-vec = "*"
once_cell = "*"
petgraph = "*"
serde = { version = "*", features = ["derive"] }
serde_json = "*"
serde-wasm-bindgen = "*"
spade = "*"
wasm-bindgen = "*"
web-time = "*"
