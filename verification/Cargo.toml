[package]
name = "ecdsa"
version = "0.1.0"
edition = "2021"
publish = false

[dependencies]
elliptic-curve = "=0.6.6"
generic-array = "0.14"
signature = "=1.2.2"
