[package]
name = "weatherflow"
version = "0.1.0"
edition = "2021"
publish = false

[dependencies]
anyhow = "*"
axum = { version = "*", features = ["ws"] }
bytes = "*"
chrono = "*"
csv = "*"
futures-util = "*"
rmp-serde = "*"
serde = { version = "*", features = ["derive"] }
serde_json = "*"
tokio = { version = "*", features = ["sync", "rt-multi-thread", "macros", "net", "io-util", "time"] }
tower-http = { version = "*", features = ["cors"] }
