[package]
name = "gsw_scheme"
version = "0.1.0"
edition = "2021"
publish = false

[dependencies]
rand = "*"
rand_chacha = "*"
rand_distr = "*"
