[package]
name = "hk_core"
version = "0.1.0"
edition = "2021"
publish = false

[dependencies]
serde = { version = "=1.0.229", features = ["derive"] }
serde_json = "=1.0.154"
serde_yaml = "=0.9.34"
toml = "=0.8.23"
sha2 = "=0.10.9"
uuid = { version = "=1.29.0", features = ["v4"] }
getrandom = "=0.4.3"
dirs = "=5.0.1"
chrono = { version = "=0.4.45", features = ["serde"] }
walkdir = "=2.5.0"
tempfile = "=3.27.0"
anyhow = "=1.0.104"
axum = "=0.7.9"
tokio = { version = "=1.54.1", features = ["rt-multi-thread", "macros", "net"] }
clap = { version = "=4.6.7", features = ["derive"] }
reqwest = { version = "=0.12.28", default-features = false, features = ["blocking", "json", "rustls-tls"] }

[dev-dependencies]
tempfile = "=3.27.0"
