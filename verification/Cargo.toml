[package]
name = "highlighting"
version = "0.1.0"
edition = "2021"
publish = false

[dependencies]
levenshtein = "=1.0.5"
regex = "=1.13.1"
serde = { version = "=1.0.229", features = ["derive"] }
