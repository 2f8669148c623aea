[package]
name = "termdiff"
version = "0.1.0"
edition = "2021"
publish = false

[dependencies]
crossterm = "*"
similar = { version = "*", features = ["inline"] }
