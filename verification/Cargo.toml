[package]
name = "csv_count"
version = "0.1.0"
edition = "2021"
publish = false

[dependencies]
csv = "1"
