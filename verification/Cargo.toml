[package]
name = "neovide"
version = "0.1.0"
edition = "2021"
publish = false

[dependencies]
crossfire = "*"
winapi = { version = "0.3", features = ["windef", "winuser"] }
