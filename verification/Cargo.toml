[package]
name = "sim3dview"
version = "0.1.0"
edition = "2021"
publish = false

[dependencies]
serde = { version = "1", features = ["derive"] }
serde_json = "1"
gloo-net = "*"
gloo-timers = { version = "*", features = ["futures"] }
futures-util = "*"
wasm-bindgen = "*"
wasm-bindgen-futures = "*"
js-sys = "*"
web-sys = { version = "*", features = ["ReadableStream", "ReadableStreamDefaultReader", "ReadableStreamReadResult", "Window", "Storage", "Blob", "Document"] }
glam = "*"
log = "*"
