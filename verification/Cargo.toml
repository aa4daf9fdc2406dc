[package]
name = "als_relay"
version = "0.1.0"
edition = "2021"
publish = false

[dependencies]
env_logger = "0.11"
kafka = "0.10"
log = "0.4"
prost = "0.13"
serde = { version = "1", features = ["derive"] }
serde_json = "1"
signal-hook = "0.3"
tokio = { version = "1", features = ["rt-multi-thread", "macros", "sync"] }
tokio-stream = "0.1"
tonic = "0.12"
tower-http = { version = "0.6", features = ["trace"] }
tracing = "0.1"
