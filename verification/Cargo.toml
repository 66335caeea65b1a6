[package]
name = "dot_art"
version = "0.1.0"
edition = "2021"
publish = false

[dependencies]
image = { version = "*", default-features = false, features = ["png", "jpeg"] }
wasm-bindgen = "*"
web-sys = { version = "*", features = ["Blob", "BlobPropertyBag", "Url", "Window", "Document", "Element", "HtmlAnchorElement"] }
