[package]
name = "osm_core"
version = "0.1.0"
edition = "2021"
publish = false

[dependencies]
aes-gcm = "0.10"
argon2 = "0.5"
base64 = "0.22"
unicode-normalization = "0.1"
rand_core = { version = "0.6", features = ["getrandom"] }
thiserror = "1"
serde = { version = "1", features = ["derive"] }
serde_json = "1"
clap = { version = "4", features = ["derive"] }
wasm-bindgen = "0.2"
