[package]
name = "max4466"
version = "0.1.0"
edition = "2021"
publish = false

[dependencies]
embassy-time = "*"
embassy-sync = "*"
embassy-rp = { version = "*", features = ["rp2040"] }
