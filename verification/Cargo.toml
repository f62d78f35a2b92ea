[package]
name = "keventdir"
version = "0.1.0"
edition = "2021"
publish = false

[dependencies]
kqueue-sys = "1"
libc = "0.2"
walkdir = "2"
