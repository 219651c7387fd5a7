[package]
name = "eth_rpc_core"
version = "0.1.0"
edition = "2021"
publish = false

[dependencies]
evm_rpc_types = "*"
futures = "*"
serde = "*"
