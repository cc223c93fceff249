[package]
name = "thaimeleon_lib"
version = "0.1.0"
edition = "2021"
publish = false

[dependencies]
palette = { version = "=0.7.7", features = ["serializing"] }
quantette = "=0.6.0"
ordered-float = "=5.5.1"
itertools = "=0.15.0"
derive_more = { version = "=2.1.1", features = ["display", "error", "from"] }
serde = { version = "=1.0.229", features = ["derive"] }
wasm-bindgen = "=0.2.130"
serde-wasm-bindgen = "=0.6.5"
console_error_panic_hook = "=0.1.7"
rayon = "=1.12.0"
