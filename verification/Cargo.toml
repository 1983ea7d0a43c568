[package]
name = "vestibule"
version = "0.1.0"
edition = "2021"
publish = false

[dependencies]
chacha20poly1305 = { version = "=0.9.1", features = ["stream"] }
sha2 = "=0.10.9"
argon2 = "=0.4.1"
rand = "=0.8.8"
uuid = { version = "=1.27.0", features = ["v4"] }
chrono = "=0.4.45"
xml-rs = "0.8"
mime_guess = "=2.0.5"
urlencoding = "=2.1.3"
percent-encoding = "=2.3.2"
axum = { version = "=0.5.17", features = ["headers"] }
axum-extra = { version = "=0.3.7", features = ["cookie-signed"] }
hyper = { version = "=0.14.32", features = ["full"] }
tokio = { version = "=1.53.2", features = ["full"] }
tower = "=0.4.13"
serde = { version = "=1.0.229", features = ["derive"] }
serde_json = "=1.0.151"
serde_yaml = "=0.9.34"
headers = "=0.3.9"
futures = "=0.3.34"
tokio-util = { version = "=0.7.19", features = ["io"] }
async-walkdir = "=2.2.0"
async_zip = { version = "=0.0.19", features = ["deflate", "tokio"] }
