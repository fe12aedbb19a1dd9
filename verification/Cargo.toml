[package]
name = "chainshot"
version = "0.1.0"
edition = "2021"
publish = false

[dependencies]
faster-hex = "*"
rand = "*"
rusqlite = { version = "*", features = ["bundled"] }
