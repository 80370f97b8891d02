[package]
name = "selva"
version = "0.1.0"
edition = "2021"
publish = false

[dependencies]
glium = "0.23"
glslwatch = "*"
image = { version = "*", default-features = false, features = ["png"] }
structopt = "0.2"
