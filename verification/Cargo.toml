[package]
name = "aetherdb"
version = "0.1.0"
edition = "2021"
publish = false

[dependencies]
uuid = { version = "1", features = ["v4"] }
crossbeam-channel = "0.5"
dashmap = "6"
fs2 = "0.4"
