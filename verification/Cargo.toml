[package]
name = "floating"
version = "0.1.0"
edition = "2021"
publish = false

[dependencies]
num-bigint = "0.4"
half = "2"
anyhow = "1"
yew = { version = "0.21", features = ["csr"] }
web-sys = { version = "0.3", features = ["Event", "EventTarget", "HtmlInputElement", "console"] }
wasm-bindgen = "0.2"
