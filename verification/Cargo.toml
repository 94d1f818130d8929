[package]
name = "feather_core"
version = "0.1.0"
edition = "2021"
publish = false

[dependencies]
memmap2 = "*"
xz2 = "*"
libc = "*"
pyo3 = "0.22"
