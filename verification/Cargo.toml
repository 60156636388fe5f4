[package]
name = "crossword_engine"
version = "0.1.0"
edition = "2021"
publish = false

[dependencies]
actix-web = "4"
actix-files = "0.6"
serde = { version = "1", features = ["derive"] }
serde_json = "1"
