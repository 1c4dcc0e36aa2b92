[package]
name = "rv32_mini_asm"
version = "0.1.0"
edition = "2021"
publish = false

[dependencies]
p3-field = "*"
serde = { version = "1", features = ["derive"] }
serde-wasm-bindgen = "0.6"
wasm-bindgen = "0.2"
wasm-bindgen-rayon = "1"
js-sys = "0.3"
bincode = "1"
console_error_panic_hook = "0.1"
