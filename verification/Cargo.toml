[package]
name = "futsu_linux"
version = "0.1.0"
edition = "2021"
publish = false

[dependencies]
anyhow = "1"
libc = "0.2"
regex = "1"
tempfile = "3"
