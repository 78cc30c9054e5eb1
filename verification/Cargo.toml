[package]
name = "yang-push-key"
version = "0.1.0"
edition = "2021"
publish = false

[dependencies]
quick-xml = "0.39"
yang4 = "*"
serde = { version = "1", features = ["derive"] }
serde_json = "1"
clap = { version = "4", features = ["derive"] }
