[package]
name = "tacodns"
version = "0.1.0"
edition = "2021"
publish = false

[dependencies]
regex = "*"
yaml-rust = "*"
clap = { version = "*", features = ["derive"] }
threadpool = "*"
resolv-conf = "*"
