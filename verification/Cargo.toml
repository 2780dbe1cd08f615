[package]
name = "servmgr"
version = "0.1.0"
edition = "2021"
publish = false

[dependencies]
serde = { version = "1", features = ["derive"] }
serde_json = "1"
serde_yaml = "0.9"
chrono = { version = "0.4", features = ["serde"] }
axum = "0.8"
tokio = { version = "1", features = ["full"] }
sqlx = { version = "0.8", default-features = false, features = ["sqlite", "runtime-tokio"] }
notify = "7"
reqwest = { version = "0.12", default-features = false, features = ["rustls-tls"] }
surge-ping = "*"
tokio-stream = "0.1"
tokio-util = "0.7"
tower-http = { version = "0.6", features = ["fs"] }
tracing = "0.1"
tracing-subscriber = { version = "0.3", features = ["env-filter"] }
async-stream = "0.3"
