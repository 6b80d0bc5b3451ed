[package]
name = "statcat"
version = "0.1.0"
edition = "2021"
publish = false

[dependencies]
anyhow = "1"
charming = "*"
chrono = "0.4"
clap = "4"
rusqlite = { version = "*", features = ["bundled"] }
serenity = { version = "0.12", default-features = false, features = ["http", "model", "rustls_backend"] }
tokio = { version = "1", features = ["macros", "rt-multi-thread"] }
