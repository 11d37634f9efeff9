[package]
name = "termprompt"
version = "0.1.0"
edition = "2021"
publish = false

[dependencies]
crossterm = "*"
ratatui = "*"
serde_yaml = "*"
unicode-segmentation = "*"
