[package]
name = "kmeans"
version = "0.1.0"
edition = "2021"
publish = false

[dependencies]
arrow-array = "50"
arrow-schema = "50"
futures = "0.3"
log = "0.4"
num-traits = "0.2"
num_cpus = "1"
rand = { version = "0.8", features = ["small_rng"] }
tokio = { version = "1", features = ["rt-multi-thread"] }
