[package]
name = "valence_packet"
version = "0.1.0"
edition = "2021"
publish = false

[dependencies]
aes = "0.8"
cfb8 = "0.8"
flate2 = "1.0"
