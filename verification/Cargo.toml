[package]
name = "mcpg-config"
version = "0.1.0"
edition = "2021"
publish = false

[dependencies]
serde_json = "1"
serde_yaml = "0.9"
schemars = "1"
clap = { version = "4", features = ["derive"] }
