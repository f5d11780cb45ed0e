[package]
name = "loro_core"
version = "0.1.0"
edition = "2021"
publish = false

[dependencies]
arbitrary = { version = "=1.5.0", features = ["derive"] }
crdt-list = "=0.4.1"
js-sys = "=0.3.106"
serde = { version = "=1.0.229", features = ["derive"] }
serde-wasm-bindgen = "=0.6.5"
wasm-bindgen = "=0.2.129"

[dev-dependencies]
crdt-list = { version = "=0.4.1", features = ["fuzzing"] }
rand = "=0.8.8"
