[package]
name = "orderbook_hft"
version = "0.1.0"
edition = "2021"
publish = false

[dependencies]
ordered-float = "*"
