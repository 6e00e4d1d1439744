[package]
name = "simple_cas"
version = "0.1.0"
edition = "2021"
publish = false

[dependencies]
sha2 = "=0.10.9"
hex = "=0.4.3"
bincode = "=1.3.3"
serde = { version = "=1.0.229", features = ["derive"] }
tokio = { version = "=1.54.1", features = ["fs", "rt", "macros"] }
memmap2 = "=0.9.12"
rand = "0.8"
