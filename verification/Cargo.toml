[package]
name = "compact_relay"
version = "0.1.0"
edition = "2021"
publish = false

[dependencies]
siphasher = "*"
tiny-keccak = { version = "*", features = ["sha3"] }
parking_lot = "*"
