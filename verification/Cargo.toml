[package]
name = "native"
version = "0.1.0"
edition = "2021"
publish = false

[dependencies]
rustc-hash = "*"
dynasmrt = "*"
libc = "0.2"
