[package]
name = "maze_astar"
version = "0.1.0"
edition = "2021"
publish = false

[dependencies]
rand = "0.8"
bitflags = "2"
wasm-bindgen = "0.2"
js-sys = "0.3"
