[package]
name = "ganja_tui"
version = "0.1.0"
edition = "2021"
publish = false

[dependencies]
anyhow = "=1.0.104"
etcetera = "=0.11.0"
futures = "=0.3.34"
image = { version = "=0.25.10", default-features = false, features = ["gif", "jpeg", "png", "webp"] }
nucleo-matcher = "=0.3.1"
png = "=0.18.1"
pulldown-cmark = "=0.13.6"
ratatui = "=0.30.2"
serde = { version = "=1.0.229", features = ["derive"] }
serde_json = "=1.0.154"
syntect = { version = "=5.3.0", default-features = false, features = ["default-fancy"] }
tempfile = "=3.27.0"
thiserror = "=2.0.21"
tokio = { version = "=1.54.1", features = ["full"] }
tokio-util = "=0.7.20"
tracing = "=0.1.44"
unicode-width = "=0.2.3"
url = "=2.5.8"
