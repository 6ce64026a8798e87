[package]
name = "dbsp"
version = "0.1.0"
edition = "2021"
publish = false

[dependencies]
csv-core = "0.1"
csv = "1"
