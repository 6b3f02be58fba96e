[package]
name = "rsted"
version = "0.1.0"
edition = "2021"
publish = false

[dependencies]
ropey = { version = "1", default-features = false }
anyhow = "1"
clap = { version = "4", features = ["derive"] }
crossterm = "0.28"
env_logger = "*"
notify = "*"
ratatui = "0.29"
syntect = "5"
