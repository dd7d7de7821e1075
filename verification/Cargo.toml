[package]
name = "persi_ds"
version = "0.1.0"
edition = "2021"
publish = false

[dependencies]
itertools = "*"
