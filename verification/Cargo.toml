[package]
name = "fbas_analysis"
version = "0.1.0"
edition = "2021"
publish = false

[dependencies]
fbas_analyzer = "*"
serde = { version = "*", features = ["derive"] }
serde_json = "*"
