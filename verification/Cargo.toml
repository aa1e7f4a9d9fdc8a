[package]
name = "mmo_core"
version = "0.1.0"
edition = "2021"
publish = false

[dependencies]
uuid = { version = "1", features = ["v4", "serde"] }
bytes = "1"
serde = { version = "1", features = ["derive"] }
serde_json = "1"
bevy_math = "*"
log = "0.4"
env_logger = "*"
tokio = { version = "1", features = ["full"] }
axum = "*"
redis = { version = "*", features = ["tokio-comp", "r2d2", "bb8"] }
bb8 = "*"
r2d2 = "*"
