[package]
name = "exchange_core"
version = "0.1.0"
edition = "2021"
publish = false

[dependencies]
crossbeam-channel = "0.5"
core_affinity = "0.8"
