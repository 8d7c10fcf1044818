[package]
name = "rustlinks"
version = "0.1.0"
edition = "2021"
publish = false

[dependencies]
urlencoding = "=2.1.3"
url = "=2.5.8"
serde = { version = "*", features = ["derive"] }
serde_json = "*"
tokio = { version = "*", features = ["rt-multi-thread", "macros", "sync", "time", "fs", "io-util", "signal"] }
etcd-rs = "=1.0.1"
clap = { version = "*", features = ["derive"] }
thiserror = "*"
futures = "*"
dialoguer = "*"
