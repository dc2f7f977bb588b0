[package]
name = "fo_meta_server"
version = "0.1.0"
edition = "2021"
publish = false

[dependencies]
sled = "*"
base64 = "*"
image = "*"
rand = "*"
