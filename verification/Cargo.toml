[package]
name = "mussh"
version = "0.1.0"
edition = "2021"
publish = false

[dependencies]
chrono = "0.4"
clap = "2"
dirs = "*"
serde = "1"
serde_derive = "1"
ssh2 = "*"
sys-info = "*"
toml = "*"
