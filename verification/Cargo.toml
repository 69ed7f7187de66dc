[package]
name = "neural-network"
version = "0.1.0"
edition = "2021"
publish = false

[dependencies]
colored = "2"
ctrlc = "3"
rand = "0.8"
