[package]
name = "rediss"
version = "0.1.0"
edition = "2021"
publish = false

[dependencies]
anyhow = "1"
bytes = "1"
futures-util = "0.3"
tokio = { version = "1", features = ["macros", "net", "rt-multi-thread"] }
tokio-tower = "0.6"
tokio-util = { version = "0.7", features = ["codec"] }
tower = { version = "0.4", features = ["make", "util"] }
tracing = "0.1"
tracing-subscriber = "0.3"
