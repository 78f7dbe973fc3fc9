[package]
name = "mysticeti_core"
version = "0.1.0"
edition = "2021"
publish = false

[dependencies]
serde = { version = "1", features = ["derive"] }
serde_yaml = "0.8"
clap = { version = "4", features = ["derive"] }

[dev-dependencies]
rand = "0.8"
