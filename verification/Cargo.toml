[package]
name = "oscoin_ledger"
version = "0.1.0"
edition = "2021"
publish = false

[dependencies]
pwasm-std = { version = "=0.13.0", features = ["std"] }
pwasm-abi = { version = "=0.2.2", features = ["std"] }
pwasm-ethereum = { version = "=0.8.0", features = ["std"] }
tiny-keccak = "=1.5.0"
serde = { version = "=1.0.229", features = ["derive"] }
serde_cbor = "=0.11.2"
ethereum-types = "=0.8.0"
rustc-hex = "=2.1.0"
hex = "=0.4.3"
futures = "=0.1.31"
web3 = "=0.10.0"
clap = "=2.34.0"
env_logger = "=0.7.1"
