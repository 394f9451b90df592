[package]
name = "nix_wasm"
version = "0.1.0"
edition = "2021"
publish = false

[dependencies]
rust-ini = "*"
yaml-rust2 = "*"
num = "*"
rquickjs = "*"
