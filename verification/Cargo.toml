[package]
name = "matching_engine"
version = "0.1.0"
edition = "2021"

[dependencies]
csv = "1"
serde = { version = "1", features = ["derive"] }
criterion = { version = "0.5", default-features = false }
