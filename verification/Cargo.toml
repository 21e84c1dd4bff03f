[package]
name = "sdf_graph"
version = "0.1.0"
edition = "2021"
publish = false

[dependencies]
uuid = { version = "1", features = ["v4"] }
cgmath = "0.16"
gl = "0.11"
glutin = "0.19"
image = "0.18"
