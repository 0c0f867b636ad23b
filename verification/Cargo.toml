[package]
name = "pso_for_order_batching_rust"
version = "0.1.0"
edition = "2021"
publish = false

[dependencies]
rand = "0.10"
anyhow = "1"
clap = { version = "4", features = ["derive"] }
csv = "1"
thiserror = "2"
