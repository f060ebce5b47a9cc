[package]
name = "mqtt_broker"
version = "0.1.0"
edition = "2021"
publish = false

[dependencies]
bytes = "1"
thiserror = "1"
tokio = { version = "1", features = ["full"] }
tracing = "0.1"
tracing-subscriber = "0.3"
