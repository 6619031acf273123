[package]
name = "vsa_synth"
version = "0.1.0"
edition = "2021"
publish = false

[dependencies]
regex = "=1.13.1"
lru = "=0.12.5"
itertools = "=0.12.1"
pyo3 = { version = "=0.20.3", features = ["auto-initialize"] }
egui-macroquad = "*"
lazy_static = "1"
web-sys = { version = "0.3", features = ["console"] }
