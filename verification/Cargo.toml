[package]
name = "galois"
version = "0.1.0"
edition = "2021"
publish = false

[dependencies]
num-bigint = "0.4"
num-traits = "0.2"
once_cell = "1"
thiserror = "1"
rusqlite = { version = "*", features = ["bundled"] }
