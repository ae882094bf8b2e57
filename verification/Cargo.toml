[package]
name = "project_tracker"
version = "0.1.0"
edition = "2021"
publish = false

[dependencies]
clap = { version = "*", features = ["derive"] }
colored = "*"

[dev-dependencies]
serde_json = "*"
