[package]
name = "utnfa"
version = "0.1.0"
edition = "2021"
publish = false

[dependencies]
itertools = "*"
primitive-types = "*"
