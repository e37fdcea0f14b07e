[package]
name = "triangle_regroup"
version = "0.1.0"
edition = "2021"

[dependencies]
itertools = "*"
