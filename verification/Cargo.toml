[package]
name = "shilop"
version = "0.1.0"
edition = "2021"
publish = false

[dependencies]
rustc_apfloat = "*"
astro-float = "*"
num-bigfloat = "*"
home = "*"
cursive = "*"
