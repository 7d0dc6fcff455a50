[package]
name = "mnemonic_16bit"
version = "0.1.0"
edition = "2021"
publish = false

[dependencies]
dictionary-1024 = "=0.3.1"

[dev-dependencies]
userspace-rng = "=1.0.3"
rand_core = "=0.5.1"
