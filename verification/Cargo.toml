[package]
name = "vectordb"
version = "0.1.0"
edition = "2021"
publish = false

[dependencies]
dashmap = "*"
rustc-hash = "*"
serde = { version = "*", features = ["derive"] }
serde_cbor = "*"
half = "*"
rayon = "*"
