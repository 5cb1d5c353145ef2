[package]
name = "printandcut"
version = "0.1.0"
edition = "2021"
publish = false

[dependencies]
fcmlib = "*"
wasm-bindgen = "0.2"
js-sys = "0.3"
web-sys = { version = "0.3", features = ["console"] }
console_error_panic_hook = "0.1"
