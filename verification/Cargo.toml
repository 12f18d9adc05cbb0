[package]
name = "xcopen"
version = "0.1.0"
edition = "2021"
publish = false

[dependencies]
clap = { version = "*", features = ["derive"] }
main_error = "*"
walkdir = "*"
