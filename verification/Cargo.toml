[package]
name = "emmet_expand"
version = "0.1.0"
edition = "2021"
publish = false

[dependencies]
napi = "2"
napi-derive = "2"
