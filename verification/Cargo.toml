[package]
name = "csv2json"
version = "0.1.0"
edition = "2021"
publish = false

[dependencies]
walkdir = "2"

[dev-dependencies]
csv = "1"
serde_json = "1"
