[package]
name = "progress-token"
version = "0.1.0"
edition = "2021"
publish = false

[dependencies]
futures = "0.3"
pin-project-lite = "0.2"
serde = { version = "1", features = ["derive"] }
thiserror = "2"
tokio = { version = "1", features = ["sync", "macros", "rt"] }
tokio-stream = { version = "0.1", features = ["sync"] }
tokio-util = "0.7"
