[package]
name = "pillar_core"
version = "0.1.0"
edition = "2021"
publish = false

[dependencies]
sha3 = "=0.10.9"
ed25519-dalek = { version = "=2.2.0", features = ["rand_core"] }
rand_core = { version = "=0.6.4", features = ["getrandom"] }
x25519-dalek = "=2.0.1"
chacha20poly1305 = "=0.10.1"
hkdf = "=0.12.4"
hex = "=0.4.3"
serde = { version = "=1.0.229", features = ["derive"] }
bincode = "=1.3.3"
lz4_flex = "=0.11.6"
flume = { version = "0.11", default-features = false }
