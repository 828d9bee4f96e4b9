[package]
name = "squadro"
version = "0.1.0"
edition = "2021"
publish = false

[dependencies]
clap = { version = "*", features = ["derive"] }
fastrand = "*"
roaring = "*"
zip = { version = "*", default-features = false, features = ["deflate"] }
