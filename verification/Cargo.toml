[package]
name = "handy_notes"
version = "0.1.0"
edition = "2021"
publish = false

[dependencies]
chrono = "0.4"
rusqlite = { version = "*", features = ["bundled"] }
rusqlite_migration = "*"
serde = { version = "1", features = ["derive"] }
anyhow = "1"
log = "0.4"
