[package]
name = "optimize"
version = "0.1.0"
edition = "2021"
publish = false

[dependencies]
anyhow = "=1.0.104"
tokio = { version = "=1.54.1", features = ["rt-multi-thread", "macros"] }
serde = { version = "=1.0.229", features = ["derive"] }
toml = "=1.1.8"
