[package]
name = "life_engine"
version = "0.1.0"
edition = "2021"
publish = false

[dependencies]
wasm-bindgen = "*"
js-sys = "*"
serde = { version = "1", features = ["derive"] }
wee_alloc = "*"
