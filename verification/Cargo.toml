[package]
name = "nsa"
version = "0.1.0"
edition = "2021"
publish = false

[dependencies]
regex = "1"
chrono = "0.4"
serenity = { version = "0.12", features = ["collector"] }
tokio = { version = "1", features = ["full"] }
tokio-postgres = { version = "0.7", features = ["with-chrono-0_4"] }
reqwest = { version = "0.12", features = ["stream"] }
rand = "0.8"
