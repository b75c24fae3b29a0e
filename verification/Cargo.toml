[package]
name = "osm_view"
version = "0.1.0"
edition = "2021"
publish = false

[dependencies]
radix_trie = "=0.2.1"
osmpbf = "=0.3.8"
glam = "=0.27.0"
anyhow = "=1.0.104"
bincode = "=1.3.3"
serde = { version = "=1.0.229", features = ["derive"] }
compression = "=0.1.5"
bytemuck = { version = "=1.25.2", features = ["derive"] }
pollster = "0.3"
winit = { version = "0.29", default-features = false, features = ["rwh_06", "x11"] }
