[package]
name = "model_checker"
version = "0.1.0"
edition = "2021"

[dependencies]
petgraph = "*"
serde = { version = "1", features = ["derive"] }
serde_json = "1"
