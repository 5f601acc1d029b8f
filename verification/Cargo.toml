[package]
name = "trk_io"
version = "0.1.0"
edition = "2021"
publish = false

[dependencies]
anyhow = "1"
byteorder = "1"
nalgebra = "0.32"
