[package]
name = "marching_squares"
version = "0.1.0"
edition = "2021"
publish = false

[dependencies]
env_logger = "0.10"
log = "0.4"
noise = "0.8"
pixels = "0.13"
winit = "0.28"
