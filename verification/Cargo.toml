[package]
name = "counter_service"
version = "0.1.0"
edition = "2021"
publish = false

[dependencies]
axum = "*"
reqwest = { version = "*", default-features = false }
thiserror = "*"
tokio = { version = "*", features = ["macros", "net", "rt-multi-thread", "sync", "time"] }
tower-http = { version = "*", features = ["cors"] }
tracing-subscriber = "*"
