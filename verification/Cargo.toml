[package]
name = "rustex"
version = "0.1.0"
edition = "2021"
publish = false

[dependencies]
indexmap = "2"
clap = { version = "4", features = ["derive"] }
termcolor = "1"
lazy_static = "1"
