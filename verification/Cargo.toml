[package]
name = "logoot_core"
version = "0.1.0"
edition = "2021"
publish = false

[dependencies]
rand = "*"
serde = { version = "*", features = ["derive"] }
serde_json = "*"
bincode = "*"
clap = { version = "*", features = ["derive"] }
toml = "*"
tokio = { version = "*", features = ["net", "io-util", "rt-multi-thread", "macros"] }
lapin = { version = "*", default-features = false }
futures-lite = "*"
tracing = "*"
