[package]
name = "rustymusic"
version = "0.1.0"
edition = "2021"
publish = false

[dependencies]
rand = "*"
getopts = "*"
yaml-rust = "*"
