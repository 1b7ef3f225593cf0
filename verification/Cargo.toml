[package]
name = "juanlog"
version = "0.1.0"
edition = "2021"
publish = false

[dependencies]
memchr = "2"
memmap2 = "0.9"
rayon = "1"
libc = "0.2"
