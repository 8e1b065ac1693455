[package]
name = "rsmt2d"
version = "0.1.0"
edition = "2021"
publish = false

[dependencies]
reed-solomon-erasure = "6"
sha2 = "0.10"
serde = { version = "1", features = ["derive"] }
thiserror = "1"
