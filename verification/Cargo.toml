[package]
name = "riff_dag"
version = "0.1.0"
edition = "2021"
publish = false

[dependencies]
clap = { version = "*", features = ["derive"] }
color-eyre = "*"
crossterm = "*"
itertools = "*"
ratatui = "*"
serde = { version = "*", features = ["derive"] }
serde_json = "*"
