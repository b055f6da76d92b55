[package]
name = "msh"
version = "0.1.0"
edition = "2021"
publish = false

[dependencies]
nix = { version = "*", features = ["user", "process", "signal", "fs", "term"] }
libc = "*"
getopts = "*"
atty = "*"
