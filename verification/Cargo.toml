[package]
name = "udp"
version = "0.1.0"
edition = "2021"
publish = false

[dependencies]
byteorder = "1"
sha2 = "0.8"
time = "0.1"
