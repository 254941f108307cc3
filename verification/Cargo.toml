[package]
name = "wizzy"
version = "0.1.0"
edition = "2021"
publish = false

[dependencies]
clap = { version = "4", features = ["derive"] }
prettytable-rs = { version = "0.10", default-features = false }
rayon = "1"
walkdir = "2"
