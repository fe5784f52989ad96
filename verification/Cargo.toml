[package]
name = "solana_anchor_events"
version = "0.1.0"
edition = "2021"
publish = false

[dependencies]
anchor-lang-idl = { version = "0.1", features = ["convert"] }
base64 = "0.22"
bs58 = "0.5"
pyo3 = { version = "0.23", features = ["abi3-py39", "extension-module"] }
