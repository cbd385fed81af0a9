[package]
name = "dfs"
version = "0.1.0"
edition = "2021"
publish = false

[dependencies]
anyhow = "1"
axum = "0.8"
chrono = "0.4"
clap = { version = "4", features = ["derive"] }
prometheus = { version = "0.14", default-features = false }
quick-xml = { version = "0.37", features = ["serialize"] }
rand = "0.9"
reqwest = { version = "0.12", default-features = false, features = ["json"] }
rocksdb = { version = "0.23", default-features = false }
serde = { version = "1", features = ["derive"] }
serde_json = "1"
serde_urlencoded = "0.7"
tempfile = "3"
tokio = { version = "1", features = ["full"] }
tracing = "0.1"
tracing-subscriber = "0.3"
uuid = { version = "1", features = ["v4"] }
