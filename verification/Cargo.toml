[package]
name = "ott"
version = "0.1.0"
edition = "2021"
publish = false

[dependencies]
regex = "1"
serde = { version = "1", features = ["derive"] }
serde_json = "1"
ciborium = "0.2"
clap = { version = "4", features = ["derive"] }
miette = "7"
wasm-minimal-protocol = "*"
