[package]
name = "rustyai"
version = "0.1.0"
edition = "2021"
publish = false

[dependencies]
rand = "0.8"
rand_distr = "0.4"
ndarray = { version = "0.15", features = ["serde"] }
num-traits = "0.2"
serde = { version = "1", features = ["derive"] }
bincode = "1"
thiserror = "1"
