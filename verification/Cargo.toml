[package]
name = "xidown"
version = "0.1.0"
edition = "2021"
publish = false

[dependencies]
xmtv_api = "=0.2.2"
biliup = "=0.1.11"
anyhow = "=1.0.104"
tokio = { version = "=1.54.1", features = ["full"] }
reqwest = { version = "=0.11.27", features = ["json", "stream"] }
serde = { version = "=1.0.229", features = ["derive"] }
serde_json = "=1.0.154"
chrono = "=0.4.45"
log = "=0.4.35"
fern = { version = "=0.7.1", features = ["colored"] }
indicatif = "=0.17.11"
futures = "=0.3.34"
bytes = "=1.12.1"
qrcode = { version = "=0.14.1", default-features = false }
once_cell = "=1.21.4"
tracing = "=0.1.44"
tracing-subscriber = "=0.3.23"
