[package]
name = "bochk_check"
version = "0.1.0"
edition = "2021"
publish = false

[dependencies]
chrono = "0.4"
serde = { version = "1", features = ["derive"] }
serde_json = "1"
toml = "0.8"
tokio = { version = "1", features = ["rt-multi-thread", "macros", "time", "net", "sync"] }
axum = "0.7"
reqwest = { version = "0.12", default-features = false, features = ["json", "cookies", "rustls-tls"] }
rusqlite = { version = "0.31", features = ["bundled"] }
futures-util = "0.3"
tracing = "0.1"
tracing-subscriber = { version = "0.3", features = ["env-filter"] }
