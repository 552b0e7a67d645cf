[package]
name = "korome"
version = "0.1.0"
edition = "2021"
publish = false

[dependencies]
image = { version = "=0.25.10", default-features = false, features = ["bmp", "dds", "ff", "gif", "hdr", "ico", "jpeg", "png", "pnm", "qoi", "tga", "tiff", "webp"] }
time = "=0.1.45"
quick-error = "=1.2.3"
glium = "=0.34.0"
winit = "=0.29.15"
glutin-winit = "=0.4.2"
raw-window-handle = "=0.5.2"
