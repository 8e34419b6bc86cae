[package]
name = "bittorrent"
version = "0.1.0"
edition = "2021"
publish = false

[dependencies]
sha1 = "*"
reqwest = { version = "*", default-features = false, features = ["blocking"] }
