[package]
name = "micro_service_sim"
version = "0.1.0"
edition = "2021"
publish = false

[dependencies]
rand = "*"
rand_distr = "*"
bincode = { version = "2", features = ["derive"] }
