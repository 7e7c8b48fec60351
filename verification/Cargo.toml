[package]
name = "rco"
version = "0.1.0"
edition = "2021"
publish = false

[dependencies]
sha3 = "0.10"
sha2 = "0.10"
getrandom = "0.3"
rand = "0.8"
rand_chacha = "0.3"
rand_core = "0.6"
bls12_381 = "0.8"
ff = "0.13"
group = "0.13"
nalgebra = "0.33"
serde = { version = "1", features = ["derive"] }
memmap2 = "0.9"
libc = "0.2"
