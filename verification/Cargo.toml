[package]
name = "paper_bench"
version = "0.1.0"
edition = "2021"
publish = false

[dependencies]
clap = { version = "*", features = ["derive"] }
crossbeam-channel = "*"
paper-client = "*"
spin_sleep = "*"
