[package]
name = "nous"
version = "0.1.0"
edition = "2021"
publish = false

[dependencies]
memchr = "2"
clap = { version = "4", features = ["derive"] }
walkdir = "2"
rayon = "1"
pathdiff = "0.2"
