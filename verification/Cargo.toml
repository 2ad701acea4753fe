[package]
name = "manifest_fmt"
version = "0.1.0"
edition = "2021"
publish = false

[dependencies]
anyhow = "*"
clap = { version = "*", features = ["derive"] }
indicatif = "*"
toml_edit = "*"
walkdir = "*"
