[package]
name = "logo_wasm"
version = "0.1.0"
edition = "2021"
publish = false

[dependencies]
visioncortex = "0.8"
kurbo = "0.11"
wasm-bindgen = "0.2"
console_error_panic_hook = "0.1"
