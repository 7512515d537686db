[package]
name = "textparse"
version = "0.1.0"
edition = "2021"
publish = false

[dependencies]
lopdf = { version = "0.44", default-features = false }
