[package]
name = "bulletproofs"
version = "0.1.0"
edition = "2021"
publish = false

[dependencies]
curve25519-dalek = { version = "=5.0.0", features = ["digest", "rand_core"] }
merlin = "=3.0.0"
rand = "=0.10.3"
rand_core = "=0.10.1"
sha3 = "=0.11.0"
subtle = "=2.6.1"
serde = "=1.0.229"
zeroize = "=1.9.1"
