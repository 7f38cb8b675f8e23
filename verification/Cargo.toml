[package]
name = "zbus_core"
version = "0.1.0"
edition = "2021"
publish = false

[dependencies]
nix = { version = "*", features = ["user"] }
async-process = "*"
futures-lite = "*"
serde = "*"
