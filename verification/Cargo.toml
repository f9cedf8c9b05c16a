[package]
name = "moo3_save"
version = "0.1.0"
edition = "2021"
publish = false

[dependencies]
az = "1"
memchr = "2"
thiserror = "2"
anyhow = "1"
serde = { version = "1", features = ["derive"] }
serde_json = "1"
wasm-bindgen = "0.2"

[dev-dependencies]
flate2 = "1"
