[package]
name = "jpg_renamer"
version = "0.1.0"
edition = "2021"
publish = false

[dependencies]
docopt = "*"
failure = "*"
serde = "*"
serde_derive = "*"
