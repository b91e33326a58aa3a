[package]
name = "vdom"
version = "0.1.0"
edition = "2021"
publish = false

[dependencies]
crossbeam-channel = "=0.5.17"
replace_with = "=0.1.8"
