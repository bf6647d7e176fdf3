[package]
name = "wgpu_buffer"
version = "0.1.0"
edition = "2021"
publish = false

[dependencies]
bzip2 = "=0.4.4"
image = { version = "=0.23.14", default-features = false }
anyhow = "=1.0.104"
json = "0.12"
