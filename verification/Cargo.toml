[package]
name = "docsense"
version = "0.1.0"
edition = "2021"
publish = false

[dependencies]
rust-stemmers = "=1.2.0"
serde = { version = "=1.0.229", features = ["derive"] }
serde_json = "=1.0.151"
tiny_http = "=0.12.0"
clap = { version = "=4.6.7", features = ["derive"] }
colored = "=3.1.1"
xml-rs = "=1.0.0"
