[package]
name = "tlslb"
version = "0.1.0"
edition = "2021"
publish = false

[dependencies]
anyhow = "1"
clap = { version = "4", features = ["derive"] }
futures = "0.3"
parking_lot = "0.12"
serde = { version = "1", features = ["derive"] }
sha2 = "0.10"
socket2 = "0.5"
tokio = { version = "1", features = ["full"] }
toml = "0.8"
tracing = "0.1"
tracing-subscriber = "0.3"
