[package]
name = "krab_runtime"
version = "0.1.0"
edition = "2021"
publish = false

[dependencies]
crossbeam-channel = "0.5"
rayon = "1"
sharded-slab = "0.1"
