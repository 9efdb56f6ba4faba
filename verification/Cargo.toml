[package]
name = "kvs"
version = "0.1.0"
edition = "2021"
publish = false

[dependencies]
clap = "3"
gjson = "0.8"
serde = { version = "1", features = ["derive"] }
serde_json = "1"
