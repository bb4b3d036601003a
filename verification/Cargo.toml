[package]
name = "txslab"
version = "0.1.0"
edition = "2021"
publish = false

[dependencies]
replace_with = "=0.1.8"
bincode = "=2.0.1"
