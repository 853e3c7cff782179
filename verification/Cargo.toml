[package]
name = "parasect"
version = "0.1.0"
edition = "2021"
publish = false

[dependencies]
clap = { version = "4", features = ["derive"] }
crossbeam-channel = "0.5"
dashmap = "5"
num_cpus = "1"
shared_child = "1"
