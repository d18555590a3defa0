[package]
name = "draw_poker"
version = "0.1.0"
edition = "2021"
publish = false

[dependencies]
lru = "*"
rand = "0.8"
rayon = "*"
once_cell = "*"
