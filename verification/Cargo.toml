[package]
name = "vcddiff"
version = "0.1.0"
edition = "2021"
publish = false

[dependencies]
wellen = "*"
clap = { version = "*", features = ["derive"] }
