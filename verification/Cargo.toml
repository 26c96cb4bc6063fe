[package]
name = "neptune_common"
version = "0.1.0"
edition = "2021"
publish = false

[dependencies]
cosmwasm-std = "=1.5.11"
primitive-types = "*"

[dev-dependencies]
rand = "=0.8.8"
