[package]
name = "moon_pipeline"
version = "0.1.0"
edition = "2021"
publish = false

[dependencies]
humantime = "*"
console = "*"
clap = { version = "3", features = ["derive"] }
strum = "*"
strum_macros = "*"
