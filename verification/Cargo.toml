[package]
name = "metro_speedrun"
version = "0.1.0"
edition = "2021"
publish = false

[dependencies]
petgraph = "*"
blake3 = "*"
csv = "*"
serde = { version = "1", features = ["derive"] }
clap = { version = "4", features = ["derive"] }
eyre = "*"
reqwest = { version = "*", default-features = false, features = ["blocking", "rustls-tls"] }
russcip = "*"
