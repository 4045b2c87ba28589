[package]
name = "mdzk"
version = "0.1.0"
edition = "2021"
publish = false

[dependencies]
anyhow = "1"
pulldown-cmark = { version = "*", default-features = false, features = ["html"] }
serde = { version = "1", features = ["derive"] }
serde_json = "1"
