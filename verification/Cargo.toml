[package]
name = "dns_resolver"
version = "0.1.0"
edition = "2021"
publish = false

[dependencies]
rand = "0.9"
base64 = "0.22"
crossbeam-channel = "0.5"
axum = "0.8"
tokio = { version = "1", features = ["rt-multi-thread", "macros", "net"] }
tower-http = { version = "0.6", features = ["cors"] }
http = "1"
dotenvy = "0.15"
rustls = { version = "0.23", default-features = false, features = ["std"] }
rustls-pemfile = "2"
serde = { version = "1", features = ["derive"] }
serde-wasm-bindgen = "0.6"
wasm-bindgen = "0.2"
ureq = { version = "3", default-features = false }
