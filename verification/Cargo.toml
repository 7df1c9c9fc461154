[package]
name = "prc"
version = "0.1.0"
edition = "2021"
publish = false

[dependencies]
indexmap = "*"
serde = "*"
hash40 = "*"
thiserror = "*"
