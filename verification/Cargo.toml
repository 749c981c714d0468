[package]
name = "twentyfour"
version = "0.1.0"
edition = "2021"
publish = false

[dependencies]
itertools = "=0.15.0"
serde = { version = "=1.0.229", features = ["derive"] }
serde_json = "=1.0.151"
csv = "=1.4.0"
chrono = "=0.4.45"
