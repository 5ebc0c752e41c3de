[package]
name = "tokenbridge"
version = "0.1.0"
edition = "2021"
publish = false

[dependencies]
axum = "=0.8.9"
dashmap = "=6.2.1"
dotenvy = "=0.15.7"
rand = "=0.10.3"
redis = { version = "=1.7.1", features = ["tokio-comp"] }
reqwest = { version = "=0.13.5", default-features = false, features = ["query"] }
serde = { version = "=1.0.229", features = ["derive"] }
tokio = { version = "=1.53.2", features = ["rt-multi-thread", "macros", "net"] }
tracing = "=0.1.44"
tracing-subscriber = { version = "=0.3.23", features = ["env-filter"] }

[dev-dependencies]
serde_json = "=1.0.151"
