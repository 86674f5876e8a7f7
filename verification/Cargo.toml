[package]
name = "scheduler"
version = "0.1.0"
edition = "2021"
publish = false

[dependencies]
uuid = { version = "=1.27.0", features = ["v4", "v5"] }
anyhow = "=1.0.104"
axum = "=0.8.9"
futures = "=0.3.34"
qdrant-client = "=1.19.0"
reqwest = { version = "=0.12.28", default-features = false, features = ["json", "rustls-tls"] }
rmcp = { version = "=3.5.1", features = ["client", "transport-streamable-http-client", "transport-streamable-http-client-reqwest"] }
serde = { version = "=1.0.229", features = ["derive"] }
serde_json = "=1.0.151"
sqlx = { version = "=0.9.0", default-features = false, features = ["runtime-tokio", "postgres", "tls-rustls"] }
tokio = { version = "=1.53.2", features = ["full"] }
tracing-subscriber = "=0.3.23"
