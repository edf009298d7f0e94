[package]
name = "pixel_game_engine"
version = "0.1.0"
edition = "2021"
publish = false

[dependencies]
env_logger = "0.10"
log = "0.4"
pixels = "0.13"
rusttype = "0.9"
winit = "0.28"
winit_input_helper = "0.14"
