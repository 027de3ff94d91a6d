[package]
name = "baumdb"
version = "0.1.0"
edition = "2021"
publish = false

[dependencies]
anyhow = "1"
async-trait = "0.1"
byteorder = "1"
bytes = "1"
flate2 = "1"
tokio = { version = "1", features = ["fs", "io-util", "rt", "rt-multi-thread", "sync", "macros"] }
uuid = { version = "1", features = ["v4"] }
