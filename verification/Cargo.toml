[package]
name = "seekr_store"
version = "0.1.0"
edition = "2021"
publish = false

[dependencies]
sled = "*"
uuid = { version = "*", features = ["v7"] }
chrono = "*"
serde = { version = "*", features = ["derive"] }
serde_json = "*"
axum = "*"
tokio = { version = "*", features = ["full"] }
clap = { version = "*", features = ["derive", "env"] }
anyhow = "*"
