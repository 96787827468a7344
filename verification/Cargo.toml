[package]
name = "default_index"
version = "0.1.0"
edition = "2021"
publish = false

[dependencies]
blake2 = "0.10"
byteorder = "1"
digest = "0.10"
hex = "0.4"
smallvec = "1"
tempfile = "3"
