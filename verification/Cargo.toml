[package]
name = "chomp"
version = "0.1.0"
edition = "2021"

[dependencies]
anyhow = "1"
clap = "2"
hyper = "0.14"
num_cpus = "1"
tokio = { version = "1", features = ["full"] }
toml = "0.5"
