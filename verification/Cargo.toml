[package]
name = "dns_kit"
version = "0.1.0"
edition = "2021"
publish = false

[dependencies]
hmac = "0.12"
sha1 = "0.10"
sha2 = "0.10"
ed25519-dalek = "2"
p256 = "0.13"
