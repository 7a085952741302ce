[package]
name = "solana_snapshot_etl"
version = "0.1.0"
edition = "2021"
publish = false

[dependencies]
crossbeam = "=0.8.5"
tar = "0.4"
