[package]
name = "cacher"
version = "0.1.0"
edition = "2021"
publish = false

[dependencies]
rand = "0.8"
clap = { version = "3.2", features = ["derive"] }
zip = { version = "0.6", default-features = false, features = ["deflate"] }
indicatif = "0.17"
serde = { version = "1", features = ["derive"] }
bincode = { version = "2", features = ["serde"] }
