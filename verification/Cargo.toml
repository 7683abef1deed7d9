[package]
name = "openshell_core"
version = "0.1.0"
edition = "2021"
publish = false

[dependencies]
container-device-interface = "=1.1.1"
serde = { version = "=1.0.229", features = ["derive"] }
serde_json = "=1.0.154"
tracing = "=0.1.44"
tracing-subscriber = { version = "=0.3.23", features = ["env-filter"] }
opentelemetry_sdk = "=0.33.1"

[dev-dependencies]
tempfile = "=3.27.0"
