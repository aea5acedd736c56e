[package]
name = "flip_finder"
version = "0.1.0"
edition = "2021"
publish = false

[dependencies]
serde = { version = "*", features = ["derive"] }
serde_json = "*"
reqwest = { version = "*", default-features = false, features = ["blocking", "json", "rustls-tls"] }
rusqlite = { version = "*", features = ["bundled"] }
