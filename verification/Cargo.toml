[package]
name = "orderbook_sync"
version = "0.1.0"
edition = "2021"
publish = false

[dependencies]
sp-crypto-hashing = "=0.1.0"
parking_lot = "=0.12.5"
