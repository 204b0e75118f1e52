[package]
name = "event_forwarder"
version = "0.1.0"
edition = "2021"
publish = false

[dependencies]
env_logger = "0.7"
failure = "0.1"
futures = "0.3"
futures-util = "0.3"
log = "0.4"
tokio = { version = "0.2", features = ["full"] }
tokio-util = { version = "0.3", features = ["codec"] }
