[package]
name = "rustycache"
version = "2.0.0"
edition = "2021"
publish = false

[dependencies]
ahash = "0.8"
chrono = "0.4"
tokio = { version = "1", default-features = false, features = ["rt", "time", "sync", "macros"] }
