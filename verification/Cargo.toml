[package]
name = "hello_rust_core"
version = "0.1.0"
edition = "2021"
publish = false

[dependencies]
anyhow = "1"
libm = "0.2"
postcard = { version = "1", default-features = false, features = ["alloc"] }
serde = { version = "1", features = ["derive"] }
