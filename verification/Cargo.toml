[package]
name = "tag_composition"
version = "0.1.0"
edition = "2021"
publish = false

[dependencies]
itertools = "=0.10.5"
Inflector = "=0.11.4"
anyhow = "=1.0.104"
indexmap = { version = "=1.9.3", features = ["serde"] }
serde = { version = "=1.0.229", features = ["derive"] }
toml_edit = "=0.19.15"
eframe = { version = "=0.20.1", default-features = false, features = ["glow", "persistence"] }
egui = { version = "=0.20.1", default-features = false, features = ["serde"] }
egui_extras = { version = "=0.20.0", default-features = false }
egui-notify = "=0.5.1"
syntect = { version = "=5.3.0", default-features = false, features = ["default-fancy"] }
tracing = "=0.1.44"
tracing-subscriber = "=0.3.23"
linfa = "=0.6.1"
ndarray = "=0.15.6"
console_error_panic_hook = "0.1"
tracing-wasm = "0.2"
wasm-bindgen-futures = "0.4"
