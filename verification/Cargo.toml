[package]
name = "mongowner"
version = "0.1.0"
edition = "2021"
publish = false

[dependencies]
mongodb = { version = "*", features = ["sync"] }
petgraph = "*"
serde = { version = "*", features = ["derive"] }
serde_json = "*"
