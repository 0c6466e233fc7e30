[package]
name = "periodic_table"
version = "0.1.0"
edition = "2021"
publish = false

[dependencies]
clap = { version = "4", features = ["derive"] }
serde = { version = "1", features = ["derive"] }
serde_json = "1"
serde_yaml_ng = "0.10"
thiserror = "2"
wasm-bindgen = "0.2"
serde-wasm-bindgen = "*"
tsify = "*"
