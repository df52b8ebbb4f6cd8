[package]
name = "stash"
version = "0.1.6"
edition = "2021"
publish = false

[dependencies]
serde = { version = "1", features = ["derive"] }

[dev-dependencies]
bincode = "1"
