[package]
name = "dig-peer-selector"
version = "0.4.1"
edition = "2021"
publish = false

[dependencies]
dig-dht = "*"
dig-nat = "*"
dig-peer = "*"
rand = "0.8"
rand_pcg = "0.3"
serde = { version = "1", features = ["derive"] }
