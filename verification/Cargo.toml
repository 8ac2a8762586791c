[package]
name = "backend_odyssey"
version = "0.1.0"
edition = "2021"
publish = false

[dependencies]
regex = "1"
rand = { version = "0.8", features = ["small_rng"] }
chrono = "0.4"
once_cell = "1"
serde = { version = "1", features = ["derive"] }
serde_json = "1"
serde-wasm-bindgen = "0.6"
wasm-bindgen = "0.2"
wasm-bindgen-futures = "0.4"
js-sys = "0.3"
web-sys = { version = "0.3", features = ["Request", "RequestInit", "RequestMode", "Response", "Window"] }
