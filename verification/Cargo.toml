[package]
name = "six_eight"
version = "0.1.0"
edition = "2021"
publish = false

[dependencies]
num-rational = "*"
num-integer = "*"
num-traits = "*"
kurbo = "*"
wasm-bindgen = "*"
specs = "*"
base64 = "*"
