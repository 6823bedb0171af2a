[package]
name = "epubimg"
version = "0.1.0"
edition = "2021"
publish = false

[dependencies]
zip = { version = "*", default-features = false, features = ["deflate"] }
clap = { version = "*", features = ["derive"] }
