[package]
name = "lit"
version = "0.1.0"
edition = "2021"
publish = false

[dependencies]
markdown = "1"
clap = { version = "4", features = ["derive"] }
color-eyre = "0.6"
tracing = "0.1"
tracing-subscriber = { version = "0.3", features = ["env-filter"] }
walkdir = "2"
