[package]
name = "irmin"
version = "0.1.0"
edition = "2021"
publish = false

[dependencies]
blake2 = "*"
serde_json = "*"
tokio = { version = "*", features = ["io-util", "net", "rt"] }
