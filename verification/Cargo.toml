[package]
name = "meshwalk"
version = "0.1.0"
edition = "2021"
publish = false

[dependencies]
petgraph = "0.6"
rustc-hash = "1.1"
itertools = "0.12"
obj = "0.10"
glam = "0.25"
rayon = "1"
gif = "0.13"
glium = "0.34"
glutin = "0.31"
winit = "0.29"
