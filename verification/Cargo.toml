[package]
name = "bittorrent_client"
version = "0.1.0"
edition = "2021"
publish = false

[dependencies]
sha1_smol = "1"
reqwest = { version = "0.12", default-features = false }
tokio = { version = "1", features = ["full"] }
clap = { version = "4", features = ["derive"] }
tracing = "0.1"
nom = "8"
regex = "1"
serde = { version = "1", features = ["derive"] }
