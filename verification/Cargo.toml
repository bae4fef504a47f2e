[package]
name = "wl_isomorphism"
version = "0.1.0"
edition = "2021"
publish = false

[dependencies]
bytemuck = "*"
twox-hash = "*"
petgraph = "*"
palette = "*"
