[package]
name = "metatron_qso"
version = "0.1.0"
edition = "2021"
publish = false

[dependencies]
petgraph = "0.6"
nalgebra = "0.33"
num-complex = "0.4"
rand = "0.8"
serde = { version = "1", features = ["derive"] }
serde_json = "1"
figment = { version = "0.10", features = ["env", "toml"] }
anyhow = "1"
thiserror = "1"
tracing = "0.1"
chrono = { version = "0.4", features = ["serde"] }
uuid = { version = "1", features = ["v4", "serde"] }
