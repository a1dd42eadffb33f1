[package]
name = "mimc7"
version = "0.1.0"
edition = "2021"
publish = false

[dependencies]
num-bigint = "0.4"
tiny-keccak = { version = "2", features = ["keccak"] }
