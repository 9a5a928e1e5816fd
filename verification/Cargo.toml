[package]
name = "onpair_rs"
version = "0.1.0"
edition = "2021"

[dependencies]
ptr_hash = "*"
rand = "0.8"
rustc-hash = "2"
