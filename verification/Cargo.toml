[package]
name = "party_engine"
version = "0.1.0"
edition = "2021"
publish = false

[dependencies]
lru = "*"
bimap = "*"
fixed-vec-deque = "*"
parking_lot = "*"
crossbeam = "*"
