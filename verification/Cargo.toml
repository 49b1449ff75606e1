[package]
name = "bumblebee"
version = "0.1.0"
edition = "2021"
publish = false

[dependencies]
failure = "=0.1.8"
serde = { version = "=1.0.229", features = ["derive"] }
serde_json = { version = "=1.0.154", features = ["preserve_order"] }
typetag = "=0.2.23"
