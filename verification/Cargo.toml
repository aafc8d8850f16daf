[package]
name = "frame"
version = "0.1.0"
edition = "2021"
publish = false

[dependencies]
clap = { version = "4", features = ["derive"] }
tempfile = "3"
termbg = "*"
clap-tui = "*"
