[package]
name = "yake"
version = "0.1.0"
edition = "2021"
publish = false

[dependencies]
clap = "2"
serde = { version = "1", features = ["derive"] }
serde_derive = "1"
serde_yaml = "0.8"
