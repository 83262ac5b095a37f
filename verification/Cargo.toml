[package]
name = "proximity_sort"
version = "0.1.0"
edition = "2021"
publish = false

[dependencies]
clap = { version = "*", features = ["derive"] }
os_str_bytes = "*"
