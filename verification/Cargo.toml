[package]
name = "maze_walker"
version = "0.1.0"
edition = "2021"
publish = false

[dependencies]
png = "0.17"
wasm-bindgen = "0.2"
