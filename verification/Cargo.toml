[package]
name = "linkcheck"
version = "0.1.0"
edition = "2021"
publish = false

[dependencies]
scraper = "*"
url = "*"
walkdir = "*"
clap = { version = "*", features = ["derive"] }
