[package]
name = "just-the-code"
version = "0.1.0"
edition = "2021"
publish = false

[dependencies]
directories = "5"
gumdrop = "0.8"
indexmap = { version = "2", features = ["serde"] }
serde = { version = "1", features = ["derive"] }
toml = "0.8"
