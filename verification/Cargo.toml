[package]
name = "geometer"
version = "0.1.0"
edition = "2021"
publish = false

[dependencies]
clap = { version = "4", features = ["derive"] }
regex = "1"
serde = { version = "1", features = ["derive"] }
serde-hjson = "*"
serde_json = "1"
walkdir = "2"
