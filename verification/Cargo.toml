[package]
name = "breviewer"
version = "0.1.0"
edition = "2021"
publish = false

[dependencies]
ratatui = "*"
ratatui-textarea = "*"
crossterm = "*"
serde = { version = "1", features = ["derive"] }
toml = "*"
clap = { version = "4", features = ["derive"] }
anyhow = "1"
arboard = { version = "3", default-features = false }
chrono = "0.4"
whoami = "*"
