[package]
name = "paru"
version = "0.1.0"
edition = "2021"
publish = false

[dependencies]
regex = "1"
scraper = "*"
serde = { version = "1", features = ["derive"] }
toml = "*"
ansiterm = "*"
anyhow = "1"
nix = { version = "*", features = ["fs"] }
alpm-utils = { version = "*", default-features = false }
