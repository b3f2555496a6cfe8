[package]
name = "patchkeeper"
version = "0.1.0"
edition = "2021"
publish = false

[dependencies]
anyhow = "*"
chrono = "*"
colored = "*"
crossterm = "*"
git2 = { version = "*", default-features = false }
gumdrop = "*"
ratatui = "*"
