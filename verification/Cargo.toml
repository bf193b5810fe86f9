[package]
name = "writerm"
version = "0.1.0"
edition = "2021"
publish = false

[dependencies]
color-eyre = "0.6"
crossterm = "0.29"
ratatui = "0.30"
serde = { version = "1", features = ["derive"] }
unicode-segmentation = "1"
