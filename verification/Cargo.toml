[package]
name = "summa_solvency"
version = "0.1.0"
edition = "2021"
publish = false

[dependencies]
csv = "1"
ethers = { version = "2.0", default-features = false }
serde = { version = "1.0", features = ["derive"] }
