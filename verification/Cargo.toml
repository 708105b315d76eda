[package]
name = "lsnote"
version = "0.1.0"
edition = "2021"
publish = false

[dependencies]
arboard = { version = "*", default-features = false }
chrono = "*"
clap = { version = "*", features = ["derive"] }
colored = "*"
dirs = "*"
libc = "*"
users = "*"
