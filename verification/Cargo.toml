[package]
name = "audio_cascade"
version = "0.1.0"
edition = "2021"
publish = false

[dependencies]
pixels = "0.13"
realfft = "3"
rustfft = "6"
screencapturekit = "*"
winit = "0.28"
