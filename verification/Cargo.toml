[package]
name = "jlox"
version = "0.1.0"
edition = "2021"
publish = false

[dependencies]
itertools = "*"
rustyline = "*"
clap = { version = "4", features = ["derive"] }
