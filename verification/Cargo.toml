[package]
name = "graph_bins"
version = "0.1.0"
edition = "2021"
publish = false

[dependencies]
rand = "0.8"
itertools = "0.13"
smallvec = "1"
