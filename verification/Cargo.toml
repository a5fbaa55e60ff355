[package]
name = "snaek"
version = "0.1.0"
edition = "2021"
publish = false

[dependencies]
clap = "2.33"
rand = "0.8"
serde = { version = "1", features = ["derive"] }
serde_json = "1"
termion = "1.5"
