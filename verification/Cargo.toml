[package]
name = "zchan"
version = "0.1.0"
edition = "2021"
publish = false

[dependencies]
crossbeam = "0.7.3"
futures = "0.1"
tokio = "0.1.22"
