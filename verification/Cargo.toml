[package]
name = "common"
version = "0.1.0"
edition = "2021"
publish = false

[dependencies]
rand = "0.8"
winit = "0.28"
softbuffer = "0.3"
nalgebra = "0.32"
