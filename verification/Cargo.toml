[package]
name = "mistake_agent"
version = "0.1.0"
edition = "2021"
publish = false

[dependencies]
chrono = "=0.4.45"
uuid = { version = "=1.29.0", features = ["v4"] }
serde = { version = "=1.0.229", features = ["derive"] }
serde_json = "=1.0.154"
base64 = "=0.22.1"
tokio = { version = "=1.54.1", features = ["rt-multi-thread", "macros", "time", "sync"] }
reqwest = { version = "=0.12.28", default-features = false, features = ["rustls-tls", "stream", "json"] }
futures-util = "=0.3.34"
jsonschema = { version = "0.33", default-features = false }
