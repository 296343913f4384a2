[package]
name = "panetiere"
version = "0.1.0"
edition = "2021"
publish = false

[dependencies]
aes-gcm = "0.10"
p256 = { version = "0.13", features = ["ecdh", "ecdsa"] }
rand = "0.8"
rand_chacha = "0.3"
rand_distr = "0.4"
rayon = "1"
sha2 = "0.10"
