[package]
name = "searchgrep"
version = "0.1.0"
edition = "2021"
publish = false

[dependencies]
regex = "*"
serde_json = "*"
anyhow = "*"
tokio = { version = "*", features = ["rt-multi-thread", "time", "macros", "sync"] }
