[package]
name = "pathrouter"
version = "0.1.0"
edition = "2021"
publish = false

[dependencies]
futures-signals = "=0.3.34"
once_cell = "=1.21.4"
wasm-bindgen = "=0.2.129"
web-sys = { version = "=0.3.106", features = ["History", "Location", "Window"] }
