[package]
name = "scenery"
version = "0.1.0"
edition = "2021"
publish = false

[dependencies]
glam = "0.29"
