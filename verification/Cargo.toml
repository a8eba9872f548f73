[package]
name = "geo"
version = "0.1.0"
edition = "2021"
publish = false

[dependencies]
byteorder = "1"
rand = "0.8"
rand_xorshift = "0.3"
rayon = "1"
