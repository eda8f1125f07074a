[package]
name = "rustbook"
version = "0.1.0"
edition = "2021"
publish = false

[dependencies]
rand = "0.7"
futures = "0.3"
lazy_static = "1"
tokio = { version = "1", features = ["rt-multi-thread", "net", "io-util", "time"] }
tokio-stream = { version = "0.1", features = ["net"] }
