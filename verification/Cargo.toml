[package]
name = "dpm_server"
version = "0.1.0"
edition = "2021"
publish = false

[dependencies]
sha2 = "*"
hex = "*"
clap = { version = "*", features = ["derive"] }
anstyle = "*"
colored = "*"
anyhow = "*"
walkdir = "*"
zip = "*"
