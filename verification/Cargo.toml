[package]
name = "detemplatize"
version = "0.1.0"
edition = "2021"
publish = false

[dependencies]
napi = "1"
napi-derive = "1"
num_cpus = "1"
rayon = "1"
