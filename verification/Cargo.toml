[package]
name = "titan"
version = "0.1.0"
edition = "2021"
publish = false

[dependencies]
pasta_curves = "0.5"
ff = "0.13"
merlin = "3"
pasta-msm = "*"
rand = "0.8"
sha2 = "0.10"
sha3 = "0.10"
ark-ff = "0.4"
ark-ec = "0.4"
ark-pallas = "0.4"
ark-poly = "0.4"
ark-std = "0.4"
ark-serialize = "0.4"
ark-crypto-primitives = { version = "0.4", features = ["crh", "merkle_tree", "sponge"] }
rayon = "1"
serde = { version = "1", features = ["derive"] }
anyhow = "1"
