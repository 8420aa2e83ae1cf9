[package]
name = "opendefalgsplitting"
version = "0.1.0"
edition = "2021"
publish = false

[dependencies]
colored = "2"
flate2 = "1"
rayon = "1"
serde = { version = "1", features = ["derive"] }
serde_json = "1"
thiserror = "1"
