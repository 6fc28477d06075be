[package]
name = "persistent_artrie"
version = "0.1.0"
edition = "2021"
publish = false

[dependencies]
arc-swap = "1.7"
smallvec = "1.13"
rustc-hash = "2"
dashmap = "6"
parking_lot = "0.12"
crossbeam-channel = "0.5"
io-uring = "0.7"
log = "0.4"
