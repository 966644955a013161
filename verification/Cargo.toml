[package]
name = "blowfish_compat"
version = "0.1.0"
edition = "2021"
publish = false

[dependencies]
blowfish = "=0.9.1"
