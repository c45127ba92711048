[package]
name = "snapshot_merger"
version = "0.1.0"
edition = "2021"
publish = false

[dependencies]
bincode = "1"
clap = "2"
env_logger = "*"
log = "*"
solana-account = "*"
solana-clock = "*"
solana-pubkey = "*"
solana-genesis-config = "*"
