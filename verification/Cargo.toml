[package]
name = "statement_gossip"
version = "0.1.0"
edition = "2021"
publish = false

[dependencies]
blake2 = "*"
futures = "*"
async-channel = "*"
log = "*"

[dev-dependencies]
parity-scale-codec = "*"
