[package]
name = "fah_rules"
version = "0.1.0"
edition = "2021"
publish = false

[dependencies]
memchr = "2"
serde = { version = "1", features = ["derive"] }
thiserror = "1"
arc-swap = "1"
tokio = { version = "1", default-features = false, features = ["rt", "sync", "time", "fs", "macros"] }
reqwest = { version = "0.12", default-features = false }
tracing = "0.1"

[dev-dependencies]
serde_json = "1"
