[package]
name = "promptpro"
version = "0.1.0"
edition = "2021"
publish = false

[dependencies]
sled = "0.34"
blake3 = "1"
aes-gcm = "0.10"
rand = "0.8"
chrono = "0.4"
anyhow = "1"
clap = { version = "4", features = ["derive"] }

[dev-dependencies]
tempfile = "3"
