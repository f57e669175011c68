[package]
name = "jake"
version = "0.6.0"
edition = "2021"
publish = false

[dependencies]
anyhow = "1"
clap = { version = "4", features = ["derive"] }
dotenv = "0.15"
serde_json = "1"
toml = { version = "*", features = ["preserve_order"] }
