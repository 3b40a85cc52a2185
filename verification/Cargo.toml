[package]
name = "deadlock_mods"
version = "0.1.0"
edition = "2021"
publish = false

[dependencies]
regex = "1"
chrono = "0.4"
serde = { version = "1", features = ["derive"] }
serde_json = "1"
log = "0.4"
dotenvy = "0.15"
tokio = { version = "1", features = ["rt", "time"] }
