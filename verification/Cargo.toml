[package]
name = "gristmill_rewrites"
version = "0.1.0"
edition = "2021"
publish = false

[dependencies]
num-rational = { version = "0.4", features = ["num-bigint"] }
num-bigint = "0.4"
num-traits = "0.2"
serde = { version = "1", features = ["derive"] }
serde_json = "1"
