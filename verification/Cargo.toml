[package]
name = "greg_calc"
version = "0.1.0"
edition = "2021"
publish = false

[dependencies]
malachite = "*"
serde = { version = "*", features = ["derive"] }
serde_json = "*"
