[package]
name = "logicsim"
version = "0.1.0"
edition = "2021"
publish = false

[dependencies]
smallvec = "1"
indexmap = "1"
num-integer = "0.1"
petgraph = "0.5"
