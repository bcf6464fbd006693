[package]
name = "read_ranges"
version = "0.1.0"
edition = "2021"
publish = false

[dependencies]
libc = "=0.2.191"
memmap2 = "=0.9.12"
nc = "=0.8.23"
