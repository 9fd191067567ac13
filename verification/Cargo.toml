[package]
name = "rc_carve"
version = "0.1.0"
edition = "2021"
publish = false

[dependencies]
memchr = "2"
serde_json = "1"
serde = { version = "1", features = ["derive"] }
clap = { version = "4", features = ["derive"] }
anyhow = "1"
thiserror = "1"
sha2 = "0.10"
indicatif = "0.17"
tracing-subscriber = { version = "0.3", features = ["env-filter"] }
