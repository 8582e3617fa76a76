[package]
name = "atmos_calc"
version = "0.1.0"
edition = "2021"
publish = false

[dependencies]
evalexpr = "11"
regex = "1"
serde = { version = "1", features = ["derive"] }
serde_yaml = "0.9"
