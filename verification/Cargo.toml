[package]
name = "kagari"
version = "0.1.5"
edition = "2021"
publish = false

[dependencies]
serde_json = "1"
gtk4 = "0.9"
