[package]
name = "fuel_node"
version = "0.1.0"
edition = "2021"
publish = false

[dependencies]
num-rational = { version = "0.4", default-features = false }
anyhow = "1"
tokio = { version = "1", default-features = false, features = ["sync", "time", "rt", "macros"] }
