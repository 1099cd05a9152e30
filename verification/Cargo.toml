[package]
name = "storygraph"
version = "0.1.0"
edition = "2021"
publish = false

[dependencies]
color-eyre = "=0.6.5"
eframe = { version = "0.27", default-features = false, features = ["glow"] }
