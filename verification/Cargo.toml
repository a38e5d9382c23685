[package]
name = "event_formatter"
version = "0.1.0"
edition = "2021"
publish = false

[dependencies]
lambda_runtime = "*"
serde_json = "*"
tokio = { version = "*", features = ["macros"] }
