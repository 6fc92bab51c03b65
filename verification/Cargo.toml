[package]
name = "cunning3d"
version = "0.1.0"
edition = "2021"
publish = false

[dependencies]
byteorder = "1"
uuid = "1"
tobj = "4"
gltf = "1"
stl_io = "*"
ply-rs = "*"
fbxcel = { version = "*", features = ["tree"] }
image = { version = "0.25", default-features = false, features = ["png", "jpeg"] }
