[package]
name = "lean_multisig"
version = "0.1.0"
edition = "2021"
publish = false

[dependencies]
blake3 = { version = "1", features = ["pure"] }

[dev-dependencies]
rand = "*"
