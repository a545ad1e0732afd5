[package]
name = "lsm_engine"
version = "0.1.0"
edition = "2021"

[dev-dependencies]
rand = "0.8"
