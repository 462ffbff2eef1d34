[package]
name = "transaction_processor"
version = "0.1.0"
edition = "2021"
publish = false

[dependencies]
csv = "*"
clap = { version = "4", features = ["derive"] }
