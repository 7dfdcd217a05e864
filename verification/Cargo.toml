[package]
name = "automerge_persistent"
version = "0.1.0"
edition = "2021"
publish = false

[dependencies]
automerge = "*"
sled = "*"
hex = "*"
serde_json = "*"
futures = "*"
tokio = { version = "*", features = ["fs"] }
wasm-bindgen = "*"
web-sys = { version = "*", features = ["Storage", "Window"] }
