[package]
name = "angry_snakes"
version = "0.1.0"
edition = "2021"
publish = false

[dependencies]
rand = "*"
pathfinding = "*"
serde = { version = "*", features = ["derive"] }
serde_json = "*"
schemars = "*"
tokio = { version = "*", features = ["full"] }
axum = { version = "*", features = ["ws"] }
futures = "*"
futures-util = "*"
async-tungstenite = { version = "*", features = ["tokio-runtime"] }
tungstenite = "*"
anyhow = "*"
tracing = "*"
tracing-subscriber = { version = "*", features = ["env-filter"] }
