[package]
name = "russh"
version = "0.4.0"
edition = "2021"
publish = false

[dependencies]
rand = "0.8"
pnet = "*"
serde = { version = "1", features = ["derive"] }
toml = "*"
yaml-rust = "0.4"
clap = "2"
prettytable-rs = "*"
