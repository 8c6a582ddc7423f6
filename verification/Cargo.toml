[package]
name = "http_server"
version = "0.1.0"
edition = "2021"
publish = false

[dependencies]
flate2 = "1"
itertools = "0.13"
tokio = { version = "1", features = ["io-util", "macros", "net", "rt-multi-thread", "sync"] }
