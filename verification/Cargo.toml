[package]
name = "elcc"
version = "0.1.0"
edition = "2021"
publish = false

[dependencies]
clap = { version = "*", features = ["derive"] }
proc-macro2 = "*"
quote = "*"
syn = { version = "*", features = ["full"] }
