[package]
name = "solana_shake"
version = "0.1.0"
edition = "2021"
publish = false

[dependencies]
solana-account-info = "*"
solana-cpi = "*"
solana-program-entrypoint = "*"
solana-program-error = "*"
solana-pubkey = "*"

[dev-dependencies]
sha3 = "0.10"
