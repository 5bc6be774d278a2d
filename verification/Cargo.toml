[package]
name = "save"
version = "0.1.0"
edition = "2021"
publish = false

[dependencies]
sha1 = "0.10"
num-integer = "0.1"
petgraph = "0.6"
num_cpus = "1"
parking_lot = "0.12"
eyre = "0.6"
clap = { version = "3", features = ["derive", "env"] }
