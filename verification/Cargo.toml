[package]
name = "pgn-reader"
version = "0.1.0"
edition = "2021"
publish = false

[dependencies]
async-trait = "=0.1.92"
btoi = "=0.5.0"
circular = "=0.3.0"
memchr = "=2.8.3"
shakmaty = "0.29"
