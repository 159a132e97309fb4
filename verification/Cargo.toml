[package]
name = "forest"
version = "0.1.0"
edition = "2021"
publish = false

[dependencies]
ahash = "0.7"
im-rc = "15"
num-integer = "0.1"
rand = "0.8"
uuid = { version = "0.8", features = ["v4"] }
wasm-bindgen = "0.2"
