[package]
name = "tellor"
version = "0.1.0"
edition = "2021"
publish = false

[dependencies]
ethabi = "18.0.0"
sp-runtime = "*"
sp-core = "*"
parity-scale-codec = "3"
