[package]
name = "go_patterns"
version = "0.1.0"
edition = "2021"
publish = false

[dependencies]
indexmap = "2"
lru = "*"
rayon = "1"
serde = { version = "1", features = ["derive"] }
serde_json = "1"
sgf-parse = "*"
walkdir = "2"
wasm-bindgen = "0.2"
wasm-bindgen-futures = "0.4"
