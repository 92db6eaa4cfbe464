[package]
name = "far_from_fatality"
version = "0.1.0"
edition = "2021"
publish = false

[dependencies]
bytes = "1"
octets = "0.2"
rand = "0.8"
serde = { version = "1", features = ["derive"] }
serde_json = "1"
local-ip-address = "*"
