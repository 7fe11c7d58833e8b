[package]
name = "spatial_trees"
version = "0.1.0"
edition = "2021"

[dependencies]
slotmap = "1"
ahash = "0.8"
