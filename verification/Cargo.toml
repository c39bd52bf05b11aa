[package]
name = "bip39_shard"
version = "0.1.0"
edition = "2021"
publish = false

[dependencies]
anyhow = "1"
bip39 = "2"
clap = "4"
getrandom = "0.2"
sha2 = "0.10"
