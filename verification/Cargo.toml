[package]
name = "k3d"
version = "0.1.0"
edition = "2021"
publish = false

[dependencies]
heapless = "=0.8.0"
hash32 = "=0.3.1"
line_drawing = "=1.0.1"
embedded-graphics-core = "=0.4.1"
nalgebra = "=0.33.3"
embassy-time = "=0.5.1"
stl_io = "=0.11.0"
