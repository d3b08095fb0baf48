[package]
name = "chunkgrep"
version = "0.1.0"
edition = "2021"
publish = false

[dependencies]
lz4_flex = "*"
clap = { version = "*", features = ["cargo"] }
log = "*"
nix = { version = "*", features = ["uio"] }
simple_logger = "*"
