[package]
name = "memtrigger"
version = "0.1.0"
edition = "2021"
publish = false

[dependencies]
users = { version = "0.11", default-features = false }
