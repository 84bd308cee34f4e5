[package]
name = "astar_jps"
version = "0.1.0"
edition = "2021"
publish = false

[dependencies]
indexmap = "*"
itertools = "*"
num-traits = "*"
rustc-hash = "*"
