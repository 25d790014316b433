[package]
name = "wl_graph_hash"
version = "0.1.0"
edition = "2021"

[dependencies]
blake2 = "=0.10.6"
hex = "=0.4.3"
petgraph = "=0.8.3"
