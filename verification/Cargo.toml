[package]
name = "prun"
version = "0.1.0"
edition = "2021"
publish = false

[dependencies]
num_cpus = "1"
serde = { version = "1", features = ["derive"] }
structopt = "0.3"
toml = "0.5"
