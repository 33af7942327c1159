[package]
name = "logmap"
version = "0.1.0"
edition = "2021"
publish = false

[dependencies]
serde = "*"
serde_json = "*"
bincode2 = "*"
crc = "1"
rust-crypto = "0.2"
fs2 = "*"
uuid = { version = "*", features = ["v4"] }
