[package]
name = "fastmulp_core"
version = "0.1.0"
edition = "2021"
publish = false

[dependencies]
memchr = "=2.8.3"
smallvec = { version = "=1.16.4", features = ["const_generics"] }
napi = "=2.16.17"
napi-derive = "=2.16.13"
wasm-bindgen = "=0.2.130"
js-sys = "=0.3.107"
