[package]
name = "t_square"
version = "0.1.0"
edition = "2021"
publish = false

[dependencies]
svg = "*"
clap = { version = "4", features = ["derive"] }
