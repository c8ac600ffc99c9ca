[package]
name = "solitaire_ecs"
version = "0.1.0"
edition = "2021"
publish = false

[dependencies]
rand = "0.8"
wasm-bindgen = "0.2"
js-sys = "0.3"
web-sys = { version = "0.3", features = ["WebSocket", "BinaryType", "ErrorEvent", "MessageEvent", "Event"] }
