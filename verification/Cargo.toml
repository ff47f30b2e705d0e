[package]
name = "rpc_account_store"
version = "0.1.0"
edition = "2021"
publish = false

[dependencies]
solana-account = "=2.2.1"
solana-commitment-config = "=2.2.1"
solana-instruction = "=2.3.3"
solana-pubkey = "=2.4.0"
solana-rpc-client = { version = "=2.3.13", default-features = false }
solana-rpc-client-api = "=2.3.13"
thiserror = "=2.0.21"
