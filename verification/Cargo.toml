[package]
name = "savestates"
version = "0.1.0"
edition = "2021"
publish = false

[dependencies]
chrono = "*"
crossterm = "*"
dirs = "*"
fs_extra = "*"
serde = { version = "*", features = ["derive"] }
serde_json = "*"
walkdir = "*"
