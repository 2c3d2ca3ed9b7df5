[package]
name = "voxel_world"
version = "0.1.0"
edition = "2021"
publish = false

[dependencies]
indexmap = { version = "2", features = ["serde"] }
glam = { version = "*", features = ["serde"] }
noise = "*"
oneshot = "*"
parking_lot = "*"
postcard = { version = "1", features = ["alloc"] }
rayon = "*"
serde = { version = "1", features = ["derive"] }
