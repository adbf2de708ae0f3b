[package]
name = "rain_stream"
version = "0.1.0"
edition = "2021"
publish = false

[dependencies]
csv = "1"
thiserror = "1"
tokio = { version = "1", features = ["rt-multi-thread", "macros", "sync", "time"] }
