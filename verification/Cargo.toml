[package]
name = "grip"
version = "0.1.0"
edition = "2021"
publish = false

[dependencies]
indexmap = "1"
fnv = "1"
libc = "0.2"
serde_json = "1"
rust-ini = "0.13"
float-cmp = "0.4"
crossbeam-channel = "0.3"
futures = "0.1"
tokio = "0.1"
hyper = "0.12"
hyper-tls = "0.3"
reqwest = "0.9"
