[package]
name = "tiered_storage"
version = "0.1.0"
edition = "2021"
publish = false

[dependencies]
hex = "0.4"
serde = "1"
serde_json = "1"
tracing = "0.1"
tracing-subscriber = { version = "0.3", features = ["env-filter"] }
