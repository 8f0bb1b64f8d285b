[package]
name = "csv_resolve"
version = "0.1.0"
edition = "2021"
publish = false

[dependencies]
bitvec = "*"
thiserror = "*"
