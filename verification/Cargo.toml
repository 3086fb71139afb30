[package]
name = "hooklib"
version = "0.1.0"
edition = "2021"
publish = false

[dependencies]
petgraph = "=0.8.3"
glam = "=0.33.12"
rand = "=0.8.8"
rhai = "=1.26.1"
