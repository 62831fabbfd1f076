[package]
name = "bitcoin_node"
version = "0.1.0"
edition = "2021"
publish = false

[dependencies]
bitcoin_hashes = "0.12"
bs58 = "0.4"
chrono = "0.4"
gtk = "0.17"
