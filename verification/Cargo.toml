[package]
name = "pmpt"
version = "0.1.0"
edition = "2021"
publish = false

[dependencies]
num-bigint = { version = "0.4", features = ["rand"] }
num-traits = "0.2"
num-complex = "0.4"
rand = "0.8"
rand_chacha = "0.3"
rand_distr = "0.4"
sha3 = "0.10"
thiserror = "1"
log = "0.4"
