[package]
name = "rust_solv"
version = "0.1.0"
edition = "2021"
publish = false

[dependencies]
varisat = "*"
serde = { version = "*", features = ["derive"] }
toml = "*"
configparser = "*"
anyhow = "*"
quick-xml = "*"
