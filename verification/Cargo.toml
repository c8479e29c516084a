[package]
name = "feed_relay"
version = "0.1.0"
edition = "2021"
publish = false

[dependencies]
reqwest = { version = "0.12", default-features = false, features = ["blocking", "json"] }
rss = { version = "2", default-features = false }
serde = { version = "1", features = ["derive"] }
serde_json = "1"
