[package]
name = "airsend"
version = "0.1.4"
edition = "2021"
publish = false

[dependencies]
mdns-sd = "0.13"
tokio = { version = "1", features = ["full"] }
crossbeam-channel = "0.5"
serde = { version = "1", features = ["derive"] }
serde_json = "1"
thiserror = "2"
tracing = "0.1"
tracing-subscriber = { version = "0.3", features = ["env-filter", "fmt"] }
tracing-appender = "0.2"
cpal = "0.15"
wasapi = "0.15"
