[package]
name = "simple_db_nn"
version = "0.1.0"
edition = "2021"
publish = false

[dependencies]
blake3 = "1"
tempfile = "3"
