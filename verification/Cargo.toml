[package]
name = "xorb"
version = "0.1.0"
edition = "2021"
publish = false

[dependencies]
memchr = "2"
clap = { version = "4", features = ["derive"] }
ignore = "0.4"
anyhow = "1"
arboard = { version = "3", default-features = false }
