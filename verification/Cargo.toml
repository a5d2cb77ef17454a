[package]
name = "atlas_txn_sender"
version = "0.1.0"
edition = "2021"
publish = false

[dependencies]
cadence = "0.29"
cadence-macros = "0.29"
dashmap = "=5.5.3"
indexmap = "=2.14.2"
solana-program-runtime = "=1.17.3"
solana-sdk = "=1.17.3"
tokio = { version = "1", features = ["rt-multi-thread", "time", "macros"] }
tonic = { version = "0.10", default-features = false, features = ["codegen"] }
tracing = "0.1"
tracing-subscriber = { version = "0.3", features = ["env-filter"] }
