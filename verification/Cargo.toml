[package]
name = "catgraph"
version = "0.1.0"
edition = "2021"
publish = false

[dependencies]
either = "=1.19.0"
itertools = "=0.15.0"
num = "=0.4.3"
permutations = "=0.1.1"
rust_decimal = "=1.43.0"
thiserror = "=2.0.21"

[dev-dependencies]
rand = "*"
