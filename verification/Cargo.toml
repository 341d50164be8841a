[package]
name = "devaforge"
version = "0.1.0"
edition = "2021"
publish = false

[dependencies]
clap = { version = "4", features = ["derive"] }
indicatif = "0.17"
inquire = "0.7"
serde = { version = "1", features = ["derive"] }
tokio = { version = "1", features = ["full"] }
toml = "0.8"
zip = { version = "0.6", default-features = false, features = ["deflate"] }
