[package]
name = "one_brc"
version = "0.1.0"
edition = "2021"
publish = false

[dependencies]
bstr = "1"
memchr = "2"
memmap2 = "0.9"
rustc-hash = "2"
