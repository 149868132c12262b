[package]
name = "kelvin"
version = "0.1.0"
edition = "2021"
publish = false

[dependencies]
bytehash = "*"
byteorder = "*"
appendix = "*"
atomicwrites = "*"
