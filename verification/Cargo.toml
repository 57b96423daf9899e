[package]
name = "licenser"
version = "0.1.0"
edition = "2021"
publish = false

[dependencies]
clap = "2"
dirs = "*"
reqwest = { version = "0.11", default-features = false, features = ["blocking", "json"] }
serde = { version = "1", features = ["derive"] }
serde_json = "1"
