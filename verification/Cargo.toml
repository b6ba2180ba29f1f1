[package]
name = "ugit"
version = "0.1.0"
edition = "2021"
publish = false

[dependencies]
anyhow = "1"
clap = { version = "4", features = ["derive"] }
crypto-hash = "0.3"
flate2 = "1"
ignore = "0.4"
