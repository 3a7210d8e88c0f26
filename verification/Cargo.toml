[package]
name = "ext_value"
version = "0.1.0"
edition = "2021"
publish = false

[dependencies]
hex-conservative = "=0.1.2"
simplicity-lang = "=0.2.0"
bitcoin-internals = "=0.2.0"
leptos = { version = "=0.6.15", default-features = false, features = ["csr"] }
