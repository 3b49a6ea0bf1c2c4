[package]
name = "unf"
version = "0.1.0"
edition = "2021"
publish = false

[dependencies]
deunicode = "*"
clap = { version = "*", features = ["derive"] }
promptly = "*"
