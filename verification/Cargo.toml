[package]
name = "chat_relay"
version = "0.1.0"
edition = "2021"
publish = false

[dependencies]
anyhow = "*"
axum = { version = "*", features = ["ws"] }
ollama-rs = { version = "*", features = ["stream"] }
serde = { version = "*", features = ["derive"] }
serde_json = "*"
tokio = { version = "*", features = ["full"] }
tokio-stream = "*"
tower-http = { version = "*", features = ["fs"] }
tracing = "*"
tracing-subscriber = "*"
