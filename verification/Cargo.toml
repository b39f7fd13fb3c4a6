[package]
name = "torn_territories"
version = "0.1.0"
edition = "2021"
publish = false

[dependencies]
image = "*"
resvg = "*"
clap = { version = "*", features = ["derive"] }
