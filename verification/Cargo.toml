[package]
name = "scene_core"
version = "0.1.0"
edition = "2021"
publish = false

[dependencies]
cgmath = "*"
getopts = "*"
glium = "*"
glutin = "*"
rustc-serialize = "*"
uuid = "*"
