[package]
name = "bracket_odds"
version = "0.1.0"
edition = "2021"
publish = false

[dependencies]
toml = { version = "0.8", default-features = false, features = ["parse"] }
