[package]
name = "flatdb"
version = "0.1.0"
edition = "2021"
publish = false

[dependencies]
chrono = { version = "=0.4.45", default-features = false, features = ["std", "clock"] }
serde = "=1.0.229"
serde_json = { version = "=1.0.154", features = ["preserve_order"] }
