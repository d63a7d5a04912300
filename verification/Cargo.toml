[package]
name = "blp_lib"
version = "0.1.0"
edition = "2021"
publish = false

[dependencies]
jpeg-decoder = { version = "*", default-features = false }
jpeg-encoder = "*"
png = "*"
libc = "*"
