[package]
name = "merkle_tree_whitelist"
version = "0.1.0"
edition = "2021"
publish = false

[dependencies]
anchor-lang = "=0.32.2"
solana-nostd-keccak = "=0.2.0"

[dev-dependencies]
tiny-keccak = { version = "=2.0.2", features = ["keccak"] }
