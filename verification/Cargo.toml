[package]
name = "keyden"
version = "0.1.0"
edition = "2021"
publish = false

[dependencies]
rand = "0.9"
time = "0.3"
argh = "0.1"
