[package]
name = "bit_templates"
version = "0.1.0"
edition = "2021"
publish = false

[dependencies]
bitmatch = "0.1"
egui = "0.19"
egui-wgpu = "0.19"
egui-winit = "0.19"
env_logger = "0.9"
log = "0.4"
pixels = "0.10"
pollster = "0.2"
rand = "0.8"
raw-window-handle = "0.4"
winit = "0.27"
winit_input_helper = "0.13"
