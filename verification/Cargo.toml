[package]
name = "kraken_chain"
version = "0.1.0"
edition = "2021"
publish = false

[dependencies]
sha2 = "*"
ring = "*"
hex = "*"
uuid = { version = "*", features = ["v4"] }
chrono = "*"
serde = { version = "*", features = ["derive"] }
serde_json = "*"
colored = "*"
num_cpus = "*"
uint = "*"
