[package]
name = "daygames"
version = "0.1.0"
edition = "2021"
publish = false

[dependencies]
serde = { version = "1", features = ["derive"] }
day-core = "=0.6.3"
day-pieces = "=0.6.3"
day-reactive = "=0.6.3"

[dev-dependencies]
serde_json = "1"
