[package]
name = "hearthwork"
version = "0.1.0"
edition = "2021"
publish = false

[dependencies]
rand = "0.9"
serde = { version = "1", features = ["derive"] }
toml = "0.9"
thiserror = "2"
