[package]
name = "noyalib"
version = "0.1.0"
edition = "2021"
publish = false

[dependencies]
serde = { version = "=1.0.229", features = ["derive"] }
serde_json = "=1.0.154"
thiserror = "=2.0.21"
rustc-hash = "=2.1.3"
miette = "=7.6.0"
indexmap = "2"
