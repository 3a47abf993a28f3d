[package]
name = "canorus"
version = "0.1.0"
edition = "2021"
publish = false

[dependencies]
clap = "*"
serde = { version = "*", features = ["derive"] }
serde_derive = "*"
serde_json = "*"
