[package]
name = "prlents"
version = "0.1.0"
edition = "2021"
publish = false

[dependencies]
serde = { version = "1", features = ["derive"] }
serde_json = "1"
nom = "7"
jwalk = "0.8"
argh = "0.1"
