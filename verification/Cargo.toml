[package]
name = "random_episode"
version = "0.1.0"
edition = "2021"
publish = false

[dependencies]
rand = "0.8"
axum = "0.6"
tokio = { version = "1", features = ["full"] }
tera = "1"
toml = "0.7"
serde = { version = "1", features = ["derive"] }
tower-http = { version = "0.4", features = ["trace"] }
tracing = "0.1"
tracing-subscriber = { version = "0.3", features = ["env-filter"] }
tracing-loki = "0.2"
