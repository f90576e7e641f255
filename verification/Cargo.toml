[package]
name = "hcomp"
version = "0.1.0"
edition = "2021"
publish = false

[dependencies]
zstd = { version = "=0.14.0", features = ["experimental"] }
