[package]
name = "miniscript_taproot"
version = "0.1.0"
edition = "2021"
publish = false

[dependencies]
sapio-miniscript = { version = "*", features = ["compiler"] }
serde = { version = "1", features = ["derive"] }
serde_json = "1"
serde-wasm-bindgen = "*"
wasm-bindgen = "0.2"
