[package]
name = "tush"
version = "0.1.0"
edition = "2021"
publish = false

[dependencies]
anstyle-parse = "*"
anyhow = "1"
arcstr = "1"
axum = "0.8"
clap = { version = "4", features = ["derive", "env"] }
crossterm = { version = "*", features = ["event-stream"] }
figment = { version = "0.10", features = ["yaml", "env"] }
hyper = { version = "1", features = ["client", "http1"] }
libc = "0.2"
parking_lot = "0.12"
parse-size = { version = "1", features = ["std"] }
ratatui = "*"
serde = { version = "1", features = ["derive", "rc"] }
serde_json = "1"
smallvec = "1"
string-interner = "*"
thiserror = "2"
tokio = { version = "1", features = ["full"] }
tokio-stream = "0.1"
tokio-util = { version = "0.7", features = ["full"] }
unicode-width = "0.2"
