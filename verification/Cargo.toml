[package]
name = "airferry"
version = "1.2.0"
edition = "2021"
publish = false

[dependencies]
crc32fast = "1"
fast_qr = "0.12"
raptorq = "2"
sha2 = "0.10"
zstd = "0.13"
xz2 = { version = "0.1", features = ["static"] }
serde = { version = "1", features = ["derive"] }
serde_json = "1"
thiserror = "1"
wasm-bindgen = "0.2"
js-sys = "0.3"
web-sys = { version = "0.3", features = ["console"] }
jni = "0.21"
