[package]
name = "dbsp"
version = "0.1.0"
edition = "2021"
publish = false

[dependencies]
bincode = "=2.0.1"
size-of = "=0.1.4"
