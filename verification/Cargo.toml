[package]
name = "spk_tracker"
version = "0.1.0"
edition = "2021"
publish = false

[dependencies]
bdk_chain = { version = "*", features = ["miniscript"] }
bdk_bitcoind_rpc = "*"
serde = { version = "*", features = ["derive"] }
