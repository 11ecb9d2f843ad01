[package]
name = "earley"
version = "0.1.0"
edition = "2021"
publish = false

[dependencies]
anyhow = "*"
itertools = "*"
thiserror = "*"
