[package]
name = "embeddenator"
version = "0.2.0"
edition = "2021"
publish = false

[dependencies]
sha2 = "0.10"
rand = "0.8"
serde = { version = "1", features = ["derive"] }
serde_json = "1"
bincode = "1"
walkdir = "2"
clap = { version = "4", features = ["derive"] }
