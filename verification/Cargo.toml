[package]
name = "evm_transfer"
version = "0.1.0"
edition = "2021"
publish = false

[dependencies]
alloy = { version = "=2.5.0", default-features = false, features = ["std", "reqwest", "contract", "provider-http", "rpc-types", "signer-mnemonic", "network", "eips"] }
anyhow = "*"
futures = "*"
log = "*"
rand = "=0.8.8"
tokio = { version = "*", features = ["rt-multi-thread", "macros", "time"] }
url = "*"
zeroize = "*"
