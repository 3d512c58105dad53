[package]
name = "critical_path"
version = "0.1.0"
edition = "2021"
publish = false

[dependencies]
clap = { version = "4", features = ["derive"] }
color-eyre = "0.6"
graphviz-rust = "*"
serde = { version = "1", features = ["derive"] }
serde_json = "1"
