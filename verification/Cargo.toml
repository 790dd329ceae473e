[package]
name = "fib_heap"
version = "0.1.0"
edition = "2021"
publish = false

[dependencies]
slab = "*"
