[package]
name = "domset"
version = "0.1.0"
edition = "2021"

[dependencies]
itertools = "0.14"
