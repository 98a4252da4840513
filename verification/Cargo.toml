[package]
name = "peer_discovery"
version = "0.1.0"
edition = "2021"
publish = false

[dependencies]
libp2p = { version = "*", features = ["ed25519", "kad", "ping", "tcp", "noise", "yamux", "tokio", "macros"] }
tokio = { version = "*", features = ["full"] }
