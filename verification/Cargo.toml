[package]
name = "insrcdata"
version = "0.1.0"
edition = "2021"
publish = false

[dependencies]
heck = "*"
clap = { version = "*", features = ["derive"] }
csv = "*"
serde = { version = "*", features = ["derive"] }
serde_derive = "*"
toml = "*"
