[package]
name = "farkle"
version = "0.1.0"
edition = "2021"
publish = false

[dependencies]
rust-freqdist = "*"
itertools = "*"
clap = { version = "4", features = ["derive"] }
bincode = "1"
serde = { version = "1", features = ["derive"] }
rand = "0.8"
stopwatch = "*"
wasm-bindgen = "*"
js-sys = "*"
web-sys = { version = "*", features = ["Request", "RequestInit", "RequestMode", "Response", "Window", "console"] }
wasm-bindgen-futures = "*"
serde-wasm-bindgen = "*"
