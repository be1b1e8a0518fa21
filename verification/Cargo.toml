[package]
name = "cost"
version = "0.1.0"
edition = "2021"
publish = false

[dependencies]
byteorder = "1"
docopt = "1"
lz4 = "1"
memmap = "0.5"
