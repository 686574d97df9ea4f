[package]
name = "ads"
version = "0.1.0"
edition = "2021"
publish = false

[dependencies]
ratatui = "=0.30.2"

[dev-dependencies]
rand = "0.8"
