[package]
name = "mazehem"
version = "0.1.0"
edition = "2021"
publish = false

[dependencies]
indexmap = "*"
rsa = "*"
rand = "0.8"
laminar = "*"
crossbeam-channel = "*"
local-ip-address = "*"
