[package]
name = "dstructs"
version = "0.1.0"
edition = "2021"
publish = false

[dependencies]
num = "0.4"
ordered-float = "4"
rand = "0.8"
