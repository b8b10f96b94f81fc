[package]
name = "pss_signer"
version = "0.1.0"
edition = "2021"
publish = false

[dependencies]
crypto-bigint = "0.3"
sha2-const = "0.1"
rand = "0.8"
rand_core = "0.6"
rand_hc = "0.3"
nb = "1"
volatile-register = "0.2"
