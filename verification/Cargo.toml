[package]
name = "multisig_address"
version = "0.1.0"
edition = "2021"
publish = false

[dependencies]
sp-io = "*"
clap = "*"
blake2 = "*"
