[package]
name = "image_layer"
version = "0.1.0"
edition = "2021"
publish = false

[dependencies]
anyhow = "1"
bytes = "1"
log = "0.4"
rand = "0.8"
