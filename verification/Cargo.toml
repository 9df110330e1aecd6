[package]
name = "sim-core"
version = "0.1.0"
edition = "2021"
publish = false

[dependencies]
serde = { version = "1", features = ["derive"] }
serde_json = "1"
async-trait = "0.1"
bevy_ecs = "0.17"
thiserror = "2"
tracing = "0.1"
