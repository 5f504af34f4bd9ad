[package]
name = "hatel"
version = "0.1.0"
edition = "2021"
publish = false

[dependencies]
axum = "=0.8.9"
blake3 = "=1.8.7"
bytes = "=1.12.1"
clap = { version = "=4.6.7", features = ["derive"] }
etcetera = "=0.11.0"
jiff = "=0.2.39"
libc = "=0.2.191"
regex = "=1.13.1"
reqwest = { version = "=0.12.28", default-features = false, features = ["rustls-tls"] }
rmcp = { version = "=3.8.0", features = ["transport-io"] }
rusqlite = { version = "=0.41.1", features = ["bundled"] }
serde = { version = "=1.0.229", features = ["derive"] }
serde_json = "=1.0.154"
thiserror = "=2.0.21"
tokio = { version = "=1.54.1", features = ["rt-multi-thread", "macros", "net", "signal", "sync", "time"] }
toml = { version = "=1.1.8", features = ["preserve_order"] }
unicode-width = "=0.2.3"
