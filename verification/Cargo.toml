[package]
name = "flintbrain"
version = "0.1.0"
edition = "2021"
publish = false

[dependencies]
chrono = "0.4"
dirs = "5"
nanoid = "0.4"
notify = "6"
rusqlite = { version = "0.32", features = ["bundled"] }
serde = { version = "1", features = ["derive"] }
serde_yaml = "0.9"
walkdir = "2"
