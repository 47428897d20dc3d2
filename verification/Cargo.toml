[package]
name = "clickr_cli"
version = "0.1.0"
edition = "2021"
publish = false

[dependencies]
anstyle = "*"
clap = { version = "*", features = ["derive"] }
interprocess = "*"
miette = { version = "*", features = ["fancy"] }
serde = { version = "*", features = ["derive"] }
serde_json = "*"
thiserror = "*"
