[package]
name = "kage"
version = "26.9.18"
edition = "2021"
publish = false

[dependencies]
rustc-hash = "2"
clap = { version = "4", features = ["derive"] }
