[package]
name = "usb_watch"
version = "0.1.0"
edition = "2021"
publish = false

[dependencies]
usb_enumeration = "*"
napi = { version = "2", default-features = false, features = ["napi4", "serde-json"] }
napi-derive = "2"
serde = { version = "1", features = ["derive"] }
