[package]
name = "push_swap"
version = "0.1.0"
edition = "2021"
publish = false

[dependencies]
colored = "*"
crossbeam-deque = "*"
num_cpus = "*"
structopt = "0.3"
