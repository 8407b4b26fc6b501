[package]
name = "tinyticker"
version = "0.1.0"
edition = "2021"
publish = false

[dependencies]
ldtray = "*"
raw-window-handle = "0.6"
softbuffer = "0.4"
winit = "0.30"
