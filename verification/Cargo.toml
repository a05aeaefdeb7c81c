[package]
name = "pickup_delivery_problem"
version = "0.1.0"
edition = "2021"
publish = false

[dependencies]
anyhow = "1"
itertools = "0.10"
log = "0.4"
petgraph = "0.6"
rand = "0.8"
simplelog = "0.12"
