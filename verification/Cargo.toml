[package]
name = "koukoku-ws-proxy"
version = "0.1.0"
edition = "2021"
publish = false

[dependencies]
anyhow = "1"
axum = { version = "0.6", features = ["ws"] }
futures = "0.3"
log = "0.4"
miniserde = "0.1"
once_cell = "1"
pretty_env_logger = "0.5"
tokio = { version = "1", features = ["full"] }
tokio-rustls = "0.24"
webpki-roots = "0.25"
