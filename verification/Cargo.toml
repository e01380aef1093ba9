[package]
name = "softbody"
version = "0.1.0"
edition = "2021"
publish = false

[dependencies]
rayon = "1"
glam = { version = "*", features = ["serde"] }
serde = { version = "1", features = ["derive"] }
bincode = "1"
csv = "1"
opencl3 = "*"
