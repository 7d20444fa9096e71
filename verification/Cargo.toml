[package]
name = "refix"
version = "0.1.0"
edition = "2021"
publish = false

[dependencies]
regex = "=1.13.1"
colored = "=3.1.1"
similar = { version = "=3.2.0", features = ["unicode"] }
clap = { version = "=4.6.7", features = ["derive"] }
serde = { version = "=1.0.229", features = ["derive"] }
serde_json = "=1.0.151"
