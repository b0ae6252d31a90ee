[package]
name = "notable_vault"
version = "0.1.0"
edition = "2021"
publish = false

[dependencies]
markdown = "*"
chrono = "*"
leon = "*"
ignore = "*"
clap = { version = "*", features = ["derive"] }
edit = "*"
fuzzydate = "*"
serde = { version = "*", features = ["derive"] }
thiserror = "*"
toml = "*"
