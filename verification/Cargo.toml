[package]
name = "max_flow"
version = "0.1.0"
edition = "2021"
publish = false

[dependencies]
petgraph = "0.8"
rand = "0.9"
statrs = "0.18"
plotters = { version = "0.3", default-features = false, features = ["bitmap_backend", "bitmap_encoder", "line_series", "errorbar", "full_palette"] }
