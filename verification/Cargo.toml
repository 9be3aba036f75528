[package]
name = "chainsnap"
version = "0.1.0"
edition = "2021"
publish = false

[dependencies]
snap = "*"
tiny-keccak = { version = "*", features = ["keccak"] }
semver = "*"
