[package]
name = "coinshift_state"
version = "0.1.0"
edition = "2021"
publish = false

[dependencies]
bitcoin = "=0.32.102"
borsh = { version = "=1.8.1", features = ["derive"] }
fallible-iterator = "=0.3.0"
heed = "=0.22.1"
rayon = "=1.12.0"
rustreexo = "=0.4.0"
sneed = "=0.0.22"
tracing = "=0.1.44"
