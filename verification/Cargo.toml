[package]
name = "sierra2casm_dbg"
version = "0.1.0"
edition = "2021"
publish = false

[dependencies]
cairo-vm = "*"
clap = { version = "*", features = ["derive"] }
starknet-types-core = "*"
