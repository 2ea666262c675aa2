[package]
name = "zink_client"
version = "0.1.0"
edition = "2021"
publish = false

[dependencies]
blake3 = "1"
borsh = "1"
n0-future = "*"
rand_core = { version = "0.6", features = ["getrandom"] }
thiserror = "2"
tracing = "0.1"
