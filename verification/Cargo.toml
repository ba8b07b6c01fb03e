[package]
name = "stomping"
version = "0.1.0"
edition = "2021"
publish = false

[dependencies]
bytes = "*"
futures = "*"
tokio = { version = "*", features = ["io-util", "macros", "net", "rt", "sync", "time"] }
tokio-util = { version = "*", features = ["codec"] }
