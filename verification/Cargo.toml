[package]
name = "meshlan_acl"
version = "0.1.0"
edition = "2021"
publish = false

[dependencies]
base64 = "0.13"
libp2p-core = "*"
libp2p-identity = { version = "*", features = ["ed25519", "rand"] }
multimap = "*"
