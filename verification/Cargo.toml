[package]
name = "dcx"
version = "0.1.0"
edition = "2021"
publish = false

[dependencies]
anyhow = "1"
clap = { version = "4", features = ["derive"] }
clap_complete = { version = "4", features = ["unstable-dynamic"] }
crossterm = "*"
ratatui = "*"
size = "*"
tempfile = "3"
ahash = "*"
