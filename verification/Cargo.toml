[package]
name = "magic_pake"
version = "0.1.0"
edition = "2021"
publish = false

[dependencies]
aes-gcm = "=0.9.4"
bincode = "=1.3.3"
bitvec = { version = "=1.1.1", features = ["serde"] }
curve25519-dalek = { version = "=4.1.3", features = ["rand_core"] }
itertools = "=0.10.5"
rand = "=0.8.8"
rand_chacha = "=0.3.1"
ring = "=0.17.14"
serde = { version = "=1.0.229", features = ["derive"] }
sha2 = "=0.10.9"
sha2ni = "=0.8.5"
