[package]
name = "fragment_core"
version = "0.1.0"
edition = "2021"
publish = false

[dependencies]
chrono = "0.4"
futures = "0.3"
thiserror = "1"
tokio = { version = "1", features = ["rt", "time", "sync", "macros"] }
tokio-stream = "0.1"
tracing = "0.1"
tracing-futures = "0.2"
