[package]
name = "claudiofsr_lib"
version = "0.1.0"
edition = "2021"
publish = false

[dependencies]
regex = "*"
blake3 = "*"
chrono = "*"
indicatif = "*"
itertools = "*"
