[package]
name = "goap-rs"
version = "0.1.0"
edition = "2021"
publish = false

[dependencies]
mash-rs = "*"
log = "0.4"
