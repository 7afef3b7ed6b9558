[package]
name = "mathspan"
version = "0.1.0"
edition = "2021"
publish = false

[dependencies]
typst = "0.13"
typst-assets = { version = "0.13", features = ["fonts"] }
typst-eval = "0.13"
typst-layout = "0.13"
typst-svg = "0.13"
wasm-bindgen = "0.2"
console_error_panic_hook = "0.1"
once_cell = "1"
serde = { version = "1", features = ["derive"] }
serde_json = "1"
