[package]
name = "swarm_rs"
version = "0.1.0"
edition = "2021"
publish = false

[dependencies]
cgmath = "=0.18.0"
behavior-tree-lite = "*"
rand = "0.8"
