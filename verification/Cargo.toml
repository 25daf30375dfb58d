[package]
name = "qidao-core"
version = "0.1.0"
edition = "2021"
publish = false

[dependencies]
sgf-parse = "*"
anyhow = "1"
serde = { version = "1", features = ["derive"] }
serde_json = "1"
thiserror = "1"
tokio = { version = "1", features = ["process", "io-util", "rt-multi-thread", "time", "sync", "macros"] }
uniffi = "*"
