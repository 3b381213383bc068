[package]
name = "wire_binding"
version = "0.1.0"
edition = "2021"
publish = false

[dependencies]
form_urlencoded = "1"
http = "0.2"
serde = "1"
