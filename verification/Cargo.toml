[package]
name = "iplists"
version = "0.1.0"
edition = "2021"
publish = false

[dependencies]
ipnet = { version = "2", features = ["serde"] }
itertools = "0.14"
strfmt = "0.2"
croner = "3"
time = { version = "0.3", features = ["serde", "serde-well-known", "local-offset", "formatting", "parsing", "macros"] }
chrono = "0.4"
serde = { version = "1", features = ["derive"] }
serde_json = "1"
axum = "0.8"
axum-server = { version = "0.7", features = ["tls-rustls"] }
tokio = { version = "1", features = ["full"] }
tower-http = { version = "0.6", features = ["fs"] }
tracing = "0.1"
tracing-appender = "0.2"
tracing-subscriber = { version = "0.3", features = ["env-filter", "local-time", "time"] }
log = "0.4"
reqwest = { version = "0.12", default-features = false, features = ["rustls-tls"] }
clap = { version = "4", features = ["derive"] }
csv = "1"
zip = { version = "2", default-features = false, features = ["deflate"] }
askama = "0.14"
thiserror = "2"
config = { version = "0.15", default-features = false, features = ["yaml", "toml"] }
humantime-serde = "1"
tokio-cron-scheduler = "0.13"
