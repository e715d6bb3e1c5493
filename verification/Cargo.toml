[package]
name = "solana_uniswap_v2"
version = "0.1.0"
edition = "2021"
publish = false

[dependencies]
fixed = "*"
fixed-sqrt = "*"
