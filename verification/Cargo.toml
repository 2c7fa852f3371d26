[package]
name = "matcher"
version = "0.1.0"
edition = "2021"
publish = false

[dependencies]
priority-queue = "*"
clap = "*"
csv = "*"
serde = { version = "*", features = ["derive"] }
