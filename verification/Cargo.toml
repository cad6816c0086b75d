[package]
name = "nota"
version = "0.1.0"
edition = "2021"
publish = false

[dependencies]
memchr = "2"
unicode-script = "0.5"
unicode-id-start = "1"
itertools = "*"
serde = { version = "1", features = ["derive"] }
serde-wasm-bindgen = "0.6"
wasm-bindgen = "0.2"
console_error_panic_hook = "0.1"
tsify = { version = "*", default-features = false, features = ["js"] }
