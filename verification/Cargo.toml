[package]
name = "tempstats"
version = "0.1.0"
edition = "2021"
publish = false

[dependencies]
ahash = "*"
bstr = "*"
memmap2 = "*"
rayon = "*"
