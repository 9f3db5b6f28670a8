[package]
name = "circuits_rust"
version = "0.1.0"
edition = "2021"
publish = false

[dependencies]
ark-bn254 = "=0.6.0"
ark-crypto-primitives = { version = "=0.6.0", features = ["crh", "sponge", "constraints"] }
ark-ff = "=0.6.0"
ark-groth16 = "=0.6.0"
ark-r1cs-std = "=0.6.0"
ark-relations = "=0.6.0"
ark-serialize = "=0.6.0"
ark-std = "=0.6.0"
hex = "=0.4.3"
rand = "=0.8.8"
serde_json = "=1.0.151"
