[package]
name = "rollup_host"
version = "0.1.0"
edition = "2021"
publish = false

[dependencies]
tezos_crypto_rs = "=0.6.0"
