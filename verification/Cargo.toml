[package]
name = "rapid_fuzzy"
version = "0.1.0"
edition = "2021"
publish = false

[dependencies]
rapidfuzz = "*"
strsim = "*"
nucleo-matcher = "*"
napi = "3"
napi-derive = "3"
wasm-bindgen = "*"
js-sys = "*"
serde = { version = "1", features = ["derive"] }
serde-wasm-bindgen = "*"
tsify-next = { version = "*", features = ["js"] }
